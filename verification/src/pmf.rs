//! Exact score distributions of one exam ticket.
//!
//! A ticket draws 3 definition cards out of 24, 4 proof cards out of 33 and,
//! afterwards, 2 formulation cards out of the 45 formulation cards left. A
//! known definition scores 1; a known formulation scores 1; a proof card
//! whose formulation is known scores 1, or 3 when its proof is known too;
//! one of the known proofs on the ticket may also be asked in full, which
//! adds 1 with probability `a / 4` where `a` is the number of known proofs.
//!
//! Probabilities are exact: every weight is a whole number of equally likely
//! draws, and a ticket distribution is given in units of
//! `1 / PROBABILITY_SCALE`.
use vstd::prelude::*;
use crate::helpers::comb;
use crate::combinatorics::{
    binomial, lemma_binomial_positive, lemma_binomial_step, lemma_binomial_zero_above, lemma_vandermonde,
    lemma_vandermonde_sum_monotone, lemma_vandermonde_term_le_sum, vandermonde_sum, vandermonde_term,
};

verus! {

/// Definition cards in the deck.
pub const TOTAL_DEF_CARDS: u32 = 24;
/// Definition cards on a ticket.
pub const DEF_CARDS_DRAWN: u32 = 3;
/// Formulation cards still in the deck when formulations are drawn.
pub const TOTAL_FORM_CARDS_AFTER_PROOFS: u32 = 45;
/// Formulation cards on a ticket.
pub const FORM_CARDS_DRAWN: u32 = 2;
/// Proof cards in the deck.
pub const TOTAL_PROOF_CARDS: u32 = 33;
/// Proof cards on a ticket.
pub const PROOF_CARDS_DRAWN: u32 = 4;
/// The highest score a ticket can give.
pub const MAX_TOTAL_SCORE: usize = 18;
/// `C(24, 3)`: equally likely draws of definition cards.
pub const DEF_DRAW_WAYS: u64 = 2024;
/// `C(45, 2)`: equally likely draws of formulation cards.
pub const FORM_DRAW_WAYS: u64 = 990;
/// `C(33, 4)`: equally likely draws of proof cards.
pub const PROOF_DRAW_WAYS: u64 = 40920;
/// Equally likely outcomes of a whole ticket: the three draws and the choice
/// of one of the four proof cards for the full proof.
pub const PROBABILITY_SCALE: u64 = 327_975_436_800;

/// A score together with the number of equally likely draws that give it.
pub type Outcome = (u8, u64);

/// The number of draws of `draws` cards out of `total`, `good` of them
/// known, that contain exactly `x` known cards.
pub open spec fn draw_weight(good: nat, total: nat, draws: nat, x: nat) -> nat {
    vandermonde_term(good, (total - good) as nat, draws, x)
}

/// The outcomes `x < j` of a draw that have at least one way to happen,
/// in increasing order of `x`.
pub open spec fn draw_outcomes_upto(good: nat, total: nat, draws: nat, j: nat) -> Seq<Outcome>
    decreases j,
{
    if j == 0 {
        seq![]
    } else {
        let x = (j - 1) as nat;
        let prev = draw_outcomes_upto(good, total, draws, x);
        if draw_weight(good, total, draws, x) > 0 {
            prev.push((x as u8, draw_weight(good, total, draws, x) as u64))
        } else {
            prev
        }
    }
}

/// The hypergeometric distribution of known cards in a draw, without the
/// impossible outcomes.
pub open spec fn draw_outcomes(good: nat, total: nat, draws: nat) -> Seq<Outcome> {
    draw_outcomes_upto(good, total, draws, draws + 1)
}

/// Known definitions on a ticket when `k_def` definitions are learned.
pub open spec fn def_outcomes(k_def: nat) -> Seq<Outcome> {
    draw_outcomes(k_def, 24, 3)
}

/// Known formulations still in the deck after `drawn` known proof cards
/// left it.
pub open spec fn known_forms_left(k_pf: nat, k_extra: nat, drawn: nat) -> nat {
    (if k_pf >= drawn { (k_pf - drawn) as nat } else { 0 }) + k_extra
}

/// Known formulations on a ticket. When more known formulations are left
/// than the deck holds, no outcome is given at all.
pub open spec fn form_outcomes(k_pf: nat, k_extra: nat, drawn: nat) -> Seq<Outcome> {
    let left = known_forms_left(k_pf, k_extra, drawn);
    if left > 45 {
        seq![]
    } else if left == 0 {
        seq![(0u8, 990u64)]
    } else {
        draw_outcomes(left, 45, 2)
    }
}

/// The sum of the weights of a list of outcomes.
pub open spec fn weight_total(l: Seq<Outcome>) -> nat
    decreases l.len(),
{
    if l.len() == 0 {
        0
    } else {
        weight_total(l.drop_last()) + l.last().1 as nat
    }
}

/// The weight of the outcomes of a list that give `score`.
pub open spec fn weight_at(l: Seq<Outcome>, score: int) -> nat
    decreases l.len(),
{
    if l.len() == 0 {
        0
    } else {
        weight_at(l.drop_last(), score) + if l.last().0 == score {
            l.last().1 as nat
        } else {
            0
        }
    }
}

/// The weight of the pairs of two independent outcome lists whose scores
/// add up to `score`.
pub open spec fn joint_weight_at(first: Seq<Outcome>, second: Seq<Outcome>, score: int) -> nat
    decreases first.len(),
{
    if first.len() == 0 {
        0
    } else {
        joint_weight_at(first.drop_last(), second, score) + (first.last().1 as nat) * weight_at(
            second,
            score - first.last().0,
        )
    }
}

/// Every outcome of the list scores at most `max_score` and has a positive
/// weight.
pub open spec fn outcomes_bounded(l: Seq<Outcome>, max_score: nat) -> bool {
    forall|i: int| 0 <= i < l.len() ==> #[trigger] l[i].0 <= max_score && l[i].1 > 0
}

/// The weight of one score is at most the total weight.
pub proof fn lemma_weight_at_le_total(l: Seq<Outcome>, score: int)
    ensures
        weight_at(l, score) <= weight_total(l),
    decreases l.len(),
{
    if l.len() > 0 {
        lemma_weight_at_le_total(l.drop_last(), score);
    }
}

/// The weight of one score of two independent lists is at most the product
/// of their total weights.
pub proof fn lemma_joint_le_product(first: Seq<Outcome>, second: Seq<Outcome>, score: int)
    ensures
        joint_weight_at(first, second, score) <= weight_total(first) * weight_total(second),
    decreases first.len(),
{
    if first.len() > 0 {
        let rest = first.drop_last();
        lemma_joint_le_product(rest, second, score);
        let w = first.last().1 as nat;
        lemma_weight_at_le_total(second, score - first.last().0);
        let a = weight_at(second, score - first.last().0);
        let t = weight_total(second);
        let j = joint_weight_at(rest, second, score);
        let r = weight_total(rest);
        assert(j + w * a <= (r + w) * t) by (nonlinear_arith)
            requires
                j <= r * t,
                a <= t,
        ;
    }
}

proof fn lemma_draw_outcomes_upto_facts(good: nat, total: nat, draws: nat, j: nat)
    requires
        j <= draws + 1,
        draws < 256,
        vandermonde_sum(good, (total - good) as nat, draws, j) < 0x1_0000_0000_0000_0000,
    ensures
        weight_total(draw_outcomes_upto(good, total, draws, j)) == vandermonde_sum(
            good,
            (total - good) as nat,
            draws,
            j,
        ),
        outcomes_bounded(draw_outcomes_upto(good, total, draws, j), draws),
        forall|i: int|
            0 <= i < draw_outcomes_upto(good, total, draws, j).len() ==> #[trigger] draw_outcomes_upto(
                good,
                total,
                draws,
                j,
            )[i].0 < j,
    decreases j,
{
    if j > 0 {
        let x = (j - 1) as nat;
        lemma_vandermonde_sum_monotone(good, (total - good) as nat, draws, x, j);
        lemma_draw_outcomes_upto_facts(good, total, draws, x);
        let prev = draw_outcomes_upto(good, total, draws, x);
        if draw_weight(good, total, draws, x) > 0 {
            let cur = prev.push((x as u8, draw_weight(good, total, draws, x) as u64));
            assert(cur.drop_last() =~= prev);
        }
    }
}

/// The weights of a draw add up to `C(total, draws)`, every outcome is at
/// most `draws` and has a positive weight.
pub proof fn lemma_draw_outcomes_facts(good: nat, total: nat, draws: nat)
    requires
        good <= total,
        draws < 256,
        binomial(total, draws) < 0x1_0000_0000_0000_0000,
    ensures
        weight_total(draw_outcomes(good, total, draws)) == binomial(total, draws),
        outcomes_bounded(draw_outcomes(good, total, draws), draws),
{
    lemma_vandermonde(good, (total - good) as nat, draws);
    lemma_draw_outcomes_upto_facts(good, total, draws, draws + 1);
}

/// The coefficients the ticket model uses.
pub proof fn lemma_deck_sizes()
    ensures
        binomial(24, 3) == 2024,
        binomial(45, 2) == 990,
        binomial(33, 4) == 40920,
{
    assert(binomial(24, 0) == 1);
    lemma_binomial_step(24, 0);
    assert(binomial(24, 1) == 24) by (nonlinear_arith)
        requires
            binomial(24, 0) == 1,
            binomial(24, 0) * (24 - 0) == binomial(24, 0 + 1) * (0 + 1),
    ;
    lemma_binomial_step(24, 1);
    assert(binomial(24, 2) == 276) by (nonlinear_arith)
        requires
            binomial(24, 1) == 24,
            binomial(24, 1) * (24 - 1) == binomial(24, 1 + 1) * (1 + 1),
    ;
    lemma_binomial_step(24, 2);
    assert(binomial(24, 3) == 2024) by (nonlinear_arith)
        requires
            binomial(24, 2) == 276,
            binomial(24, 2) * (24 - 2) == binomial(24, 2 + 1) * (2 + 1),
    ;
    assert(binomial(45, 0) == 1);
    lemma_binomial_step(45, 0);
    assert(binomial(45, 1) == 45) by (nonlinear_arith)
        requires
            binomial(45, 0) == 1,
            binomial(45, 0) * (45 - 0) == binomial(45, 0 + 1) * (0 + 1),
    ;
    lemma_binomial_step(45, 1);
    assert(binomial(45, 2) == 990) by (nonlinear_arith)
        requires
            binomial(45, 1) == 45,
            binomial(45, 1) * (45 - 1) == binomial(45, 1 + 1) * (1 + 1),
    ;
    assert(binomial(33, 0) == 1);
    lemma_binomial_step(33, 0);
    assert(binomial(33, 1) == 33) by (nonlinear_arith)
        requires
            binomial(33, 0) == 1,
            binomial(33, 0) * (33 - 0) == binomial(33, 0 + 1) * (0 + 1),
    ;
    lemma_binomial_step(33, 1);
    assert(binomial(33, 2) == 528) by (nonlinear_arith)
        requires
            binomial(33, 1) == 33,
            binomial(33, 1) * (33 - 1) == binomial(33, 1 + 1) * (1 + 1),
    ;
    lemma_binomial_step(33, 2);
    assert(binomial(33, 3) == 5456) by (nonlinear_arith)
        requires
            binomial(33, 2) == 528,
            binomial(33, 2) * (33 - 2) == binomial(33, 2 + 1) * (2 + 1),
    ;
    lemma_binomial_step(33, 3);
    assert(binomial(33, 4) == 40920) by (nonlinear_arith)
        requires
            binomial(33, 3) == 5456,
            binomial(33, 3) * (33 - 3) == binomial(33, 3 + 1) * (3 + 1),
    ;
}

/// Known definitions: weights add up to `C(24, 3)`.
pub proof fn lemma_def_outcomes_facts(k_def: nat)
    requires
        k_def <= 24,
    ensures
        weight_total(def_outcomes(k_def)) == 2024,
        outcomes_bounded(def_outcomes(k_def), 3),
{
    lemma_deck_sizes();
    lemma_draw_outcomes_facts(k_def, 24, 3);
}

/// Known formulations: weights add up to `C(45, 2)` when the known
/// formulations left fit in the deck, and to nothing otherwise.
pub proof fn lemma_form_outcomes_facts(k_pf: nat, k_extra: nat, drawn: nat)
    ensures
        weight_total(form_outcomes(k_pf, k_extra, drawn)) == if known_forms_left(
            k_pf,
            k_extra,
            drawn,
        ) <= 45 {
            990nat
        } else {
            0nat
        },
        outcomes_bounded(form_outcomes(k_pf, k_extra, drawn), 2),
{
    lemma_deck_sizes();
    let left = known_forms_left(k_pf, k_extra, drawn);
    if left > 45 {
    } else if left == 0 {
        let l = seq![(0u8, 990u64)];
        assert(l.drop_last() =~= Seq::<Outcome>::empty());
        assert(weight_total(Seq::<Outcome>::empty()) == 0);
        assert(weight_total(l) == 990);
    } else {
        lemma_draw_outcomes_facts(left, 45, 2);
    }
}

/// The draw outcomes, computed from the binomial coefficients.
fn weighted_draws(good: u32, total: u32, draws: u32) -> (outcomes: Vec<Outcome>)
    requires
        good <= total,
        draws <= 3,
        binomial(total as nat, draws as nat) < 0x1_0000_0000_0000_0000,
    ensures
        outcomes@ == draw_outcomes(good as nat, total as nat, draws as nat),
{
    let ghost g = good as nat;
    let ghost t = total as nat;
    let ghost d = draws as nat;
    proof {
        lemma_vandermonde(g, (t - g) as nat, d);
    }
    let mut outcomes: Vec<Outcome> = Vec::new();
    let mut x: u32 = 0;
    while x <= draws
        invariant
            good <= total,
            draws <= 3,
            x <= draws + 1,
            binomial(t, d) < 0x1_0000_0000_0000_0000,
            vandermonde_sum(g, (t - g) as nat, d, d + 1) == binomial(t, d),
            g == good,
            t == total,
            d == draws,
            outcomes@ == draw_outcomes_upto(g, t, d, x as nat),
        decreases draws + 1 - x,
    {
        if good < x || total - good < draws - x {
            proof {
                if good < x {
                    lemma_binomial_zero_above(g, x as nat);
                    assert(draw_weight(g, t, d, x as nat) == 0) by (nonlinear_arith)
                        requires
                            draw_weight(g, t, d, x as nat) == binomial(g, x as nat) * binomial(
                                (t - g) as nat,
                                (d - x) as nat,
                            ),
                            binomial(g, x as nat) == 0,
                    ;
                } else {
                    lemma_binomial_zero_above((t - g) as nat, (d - x) as nat);
                    assert(draw_weight(g, t, d, x as nat) == 0) by (nonlinear_arith)
                        requires
                            draw_weight(g, t, d, x as nat) == binomial(g, x as nat) * binomial(
                                (t - g) as nat,
                                (d - x) as nat,
                            ),
                            binomial((t - g) as nat, (d - x) as nat) == 0,
                    ;
                }
            }
        } else {
            proof {
                lemma_vandermonde_term_le_sum(g, (t - g) as nat, d, x as nat, d + 1);
                lemma_binomial_positive(g, x as nat);
                lemma_binomial_positive((t - g) as nat, (d - x) as nat);
                let u = binomial(g, x as nat);
                let v = binomial((t - g) as nat, (d - x) as nat);
                assert(u <= u * v && v <= u * v) by (nonlinear_arith)
                    requires
                        u >= 1,
                        v >= 1,
                ;
            }
            let with_known = comb(good, x).unwrap();
            let with_unknown = comb(total - good, draws - x).unwrap();
            let weight = with_known * with_unknown;
            if weight > 0 {
                outcomes.push((x as u8, weight));
            }
        }
        x = x + 1;
    }
    outcomes
}

/// The distribution of known definitions on a ticket when `k_def` of the 24
/// definitions are learned.
pub fn def_pmf(k_def: u8) -> (outcomes: Vec<Outcome>)
    requires
        k_def <= TOTAL_DEF_CARDS,
    ensures
        outcomes@ == def_outcomes(k_def as nat),
{
    proof {
        lemma_deck_sizes();
    }
    weighted_draws(k_def as u32, TOTAL_DEF_CARDS, DEF_CARDS_DRAWN)
}

/// The distribution of known formulations on a ticket when `k_pf` proof
/// formulations and `k_extra` other formulations are learned and `drawn`
/// known proof cards already left the deck.
pub fn form_pmf(k_pf: u8, k_extra: u8, drawn_pf_known: u8) -> (outcomes: Vec<Outcome>)
    ensures
        outcomes@ == form_outcomes(k_pf as nat, k_extra as nat, drawn_pf_known as nat),
{
    let k_pf = k_pf as u32;
    let k_extra = k_extra as u32;
    let drawn_pf_known = drawn_pf_known as u32;
    let known_remaining = k_pf.saturating_sub(drawn_pf_known) + k_extra;
    if known_remaining > TOTAL_FORM_CARDS_AFTER_PROOFS {
        return Vec::new();
    }
    if known_remaining == 0 {
        let mut outcomes: Vec<Outcome> = Vec::new();
        outcomes.push((0u8, FORM_DRAW_WAYS));
        return outcomes;
    }
    proof {
        lemma_deck_sizes();
    }
    weighted_draws(known_remaining, TOTAL_FORM_CARDS_AFTER_PROOFS, FORM_CARDS_DRAWN)
}

proof fn lemma_weight_at_prefix(l: Seq<Outcome>, j: int, score: int)
    requires
        0 <= j <= l.len(),
    ensures
        weight_at(l.take(j), score) <= weight_at(l, score),
    decreases l.len(),
{
    if j < l.len() {
        lemma_weight_at_prefix(l.drop_last(), j, score);
        assert(l.drop_last().take(j) =~= l.take(j));
    } else {
        assert(l.take(j) =~= l);
    }
}

proof fn lemma_weight_at_step(l: Seq<Outcome>, j: int, score: int)
    requires
        0 <= j < l.len(),
    ensures
        weight_at(l.take(j + 1), score) == weight_at(l.take(j), score) + if l[j].0 == score {
            l[j].1 as nat
        } else {
            0
        },
{
    assert(l.take(j + 1).drop_last() =~= l.take(j));
}

proof fn lemma_joint_prefix(first: Seq<Outcome>, second: Seq<Outcome>, i: int, score: int)
    requires
        0 <= i <= first.len(),
    ensures
        joint_weight_at(first.take(i), second, score) <= joint_weight_at(first, second, score),
    decreases first.len(),
{
    if i < first.len() {
        lemma_joint_prefix(first.drop_last(), second, i, score);
        assert(first.drop_last().take(i) =~= first.take(i));
    } else {
        assert(first.take(i) =~= first);
    }
}

proof fn lemma_joint_step(first: Seq<Outcome>, second: Seq<Outcome>, i: int, score: int)
    requires
        0 <= i < first.len(),
    ensures
        joint_weight_at(first.take(i + 1), second, score) == joint_weight_at(first.take(i), second, score)
            + (first[i].1 as nat) * weight_at(second, score - first[i].0),
{
    assert(first.take(i + 1).drop_last() =~= first.take(i));
}

/// Every pair of the two lists that carries weight, shifted by
/// `proof_score`, lands on a score of a ticket.
pub open spec fn pairs_fit(proof_score: int, proof_weight: nat, first: Seq<Outcome>, second: Seq<Outcome>) -> bool {
    forall|i: int, j: int|
        #![trigger first[i], second[j]]
        0 <= i < first.len() && 0 <= j < second.len() && proof_weight * first[i].1 * second[j].1 != 0
            ==> first[i].0 + second[j].0 + proof_score <= 18
}

/// Formulation and definition scores fit on a ticket after a proof score of
/// at most 13.
proof fn lemma_pairs_fit(proof_score: int, proof_weight: nat, forms: Seq<Outcome>, defs: Seq<Outcome>)
    requires
        outcomes_bounded(forms, 2),
        outcomes_bounded(defs, 3),
        proof_score <= 13,
    ensures
        pairs_fit(proof_score, proof_weight, forms, defs),
{
    assert forall|i: int, j: int|
        #![trigger forms[i], defs[j]]
        0 <= i < forms.len() && 0 <= j < defs.len() && proof_weight * forms[i].1 * defs[j].1 != 0
            implies forms[i].0 + defs[j].0 + proof_score <= 18 by {
        assert(forms[i].0 <= 2);
        assert(defs[j].0 <= 3);
    }
}

/// Adds `proof_weight` times the joint distribution of `form_outcomes` and
/// `def_outcomes`, shifted by `proof_score`, to `distribution`.
fn accumulate_scores(
    distribution: &mut [u64; 19],
    proof_score: usize,
    proof_weight: u64,
    form_outcomes: &Vec<Outcome>,
    def_outcomes: &Vec<Outcome>,
)
    requires
        pairs_fit(proof_score as int, proof_weight as nat, form_outcomes@, def_outcomes@),
        forall|s: int|
            0 <= s < 19 ==> old(distribution)@[s] + proof_weight * joint_weight_at(
                form_outcomes@,
                def_outcomes@,
                s - proof_score,
            ) <= u64::MAX,
    ensures
        forall|s: int|
            0 <= s < 19 ==> #[trigger] final(distribution)@[s] == old(distribution)@[s] + proof_weight
                * joint_weight_at(form_outcomes@, def_outcomes@, s - proof_score),
{
    let ghost start = distribution@;
    let ghost fo = form_outcomes@;
    let ghost dd = def_outcomes@;
    let ghost w = proof_weight as nat;
    assert(start.len() == 19);
    if proof_weight == 0 {
        assert forall|s: int| 0 <= s < 19 implies #[trigger] distribution@[s] == start[s] + w
            * joint_weight_at(fo, dd, s - proof_score) by {
            assert(w * joint_weight_at(fo, dd, s - proof_score) == 0) by (nonlinear_arith)
                requires
                    w == 0,
            ;
        }
        return;
    }
    let mut i: usize = 0;
    assert(fo.take(0) =~= Seq::<Outcome>::empty());
    assert forall|s: int| 0 <= s < 19 implies #[trigger] distribution@[s] == start[s] + w
        * joint_weight_at(fo.take(0), dd, s - proof_score) by {
        assert(joint_weight_at(fo.take(0), dd, s - proof_score) == 0);
        assert(w * 0 == 0) by (nonlinear_arith);
    }
    while i < form_outcomes.len()
        invariant
            i <= fo.len(),
            start.len() == 19,
            fo == form_outcomes@,
            dd == def_outcomes@,
            w == proof_weight,
            pairs_fit(proof_score as int, w, fo, dd),
            forall|s: int|
                0 <= s < 19 ==> start[s] + w * joint_weight_at(fo, dd, s - proof_score) <= u64::MAX,
            forall|s: int|
                0 <= s < 19 ==> #[trigger] distribution@[s] == start[s] + w * joint_weight_at(
                    fo.take(i as int),
                    dd,
                    s - proof_score,
                ),
        decreases fo.len() - i,
    {
        let (form_score, form_weight) = form_outcomes[i];
        let ghost f = form_weight as nat;
        assert(proof_weight * form_weight <= u64::MAX * u64::MAX) by (nonlinear_arith)
            requires
                proof_weight <= u64::MAX,
                form_weight <= u64::MAX,
        ;
        let partial: u128 = (proof_weight as u128) * (form_weight as u128);
        if partial != 0 {
            let mut j: usize = 0;
            assert(dd.take(0) =~= Seq::<Outcome>::empty());
            assert forall|s: int| 0 <= s < 19 implies #[trigger] distribution@[s] == start[s] + w
                * joint_weight_at(fo.take(i as int), dd, s - proof_score) + partial * weight_at(
                dd.take(0),
                s - proof_score - form_score,
            ) by {
                assert(weight_at(dd.take(0), s - proof_score - form_score) == 0);
                assert(partial * 0 == 0) by (nonlinear_arith);
            }
            while j < def_outcomes.len()
                invariant
                    i < fo.len(),
                    j <= dd.len(),
                    start.len() == 19,
                    fo == form_outcomes@,
                    dd == def_outcomes@,
                    w == proof_weight,
                    f == form_weight,
                    fo[i as int] == (form_score, form_weight),
                    partial == w * f,
                    pairs_fit(proof_score as int, w, fo, dd),
                    forall|s: int|
                        0 <= s < 19 ==> start[s] + w * joint_weight_at(fo, dd, s - proof_score)
                            <= u64::MAX,
                    forall|s: int|
                        0 <= s < 19 ==> #[trigger] distribution@[s] == start[s] + w * joint_weight_at(
                            fo.take(i as int),
                            dd,
                            s - proof_score,
                        ) + partial * weight_at(dd.take(j as int), s - proof_score - form_score),
                decreases dd.len() - j,
            {
                let (def_score, def_weight) = def_outcomes[j];
                let ghost g = def_weight as nat;
                let ghost idx = proof_score + form_score + def_score;
                proof {
                    assert(partial * def_weight == w * f * g) by (nonlinear_arith)
                        requires
                            partial == w * f,
                            g == def_weight,
                    ;
                    if w * f * g != 0 {
                        assert(fo[i as int].0 + dd[j as int].0 + proof_score <= 18);
                        let t = idx - proof_score - form_score;
                        let jp = joint_weight_at(fo.take(i as int), dd, idx - proof_score);
                        let wp = weight_at(dd.take(j as int), t);
                        let wn = weight_at(dd.take(j + 1), t);
                        let wf = weight_at(dd, t);
                        lemma_weight_at_step(dd, j as int, t);
                        lemma_weight_at_prefix(dd, j + 1, t);
                        lemma_joint_step(fo, dd, i as int, idx - proof_score);
                        lemma_joint_prefix(fo, dd, i + 1, idx - proof_score);
                        let jn = joint_weight_at(fo.take(i + 1), dd, idx - proof_score);
                        let jf = joint_weight_at(fo, dd, idx - proof_score);
                        assert(w * jp + (w * f) * wn <= w * jf) by (nonlinear_arith)
                            requires
                                wn <= wf,
                                jn == jp + f * wf,
                                jn <= jf,
                        ;
                        assert((w * f) * wn == (w * f) * wp + (w * f) * g) by (nonlinear_arith)
                            requires
                                wn == wp + g,
                        ;
                        assert((w * f) * g == partial * def_weight);
                        assert(0 <= idx < 19);
                        assert(start[idx] + w * jf <= u64::MAX);
                        assert(partial * def_weight <= u64::MAX) by (nonlinear_arith)
                            requires
                                w * jp + (w * f) * wn <= w * jf,
                                wn == wp + g,
                                (w * f) * g == partial * def_weight,
                                start[idx] + w * jf <= u64::MAX,
                                start[idx] >= 0,
                                jp >= 0,
                                wp >= 0,
                                w >= 0,
                                f >= 0,
                        ;
                    }
                }
                let total: u128 = partial * (def_weight as u128);
                if total != 0 {
                    assert(fo[i as int].0 + dd[j as int].0 + proof_score <= 18);
                    let index = proof_score + form_score as usize + def_score as usize;
                    distribution[index] = distribution[index] + total as u64;
                }
                proof {
                    assert forall|s: int| 0 <= s < 19 implies #[trigger] distribution@[s] == start[s]
                        + w * joint_weight_at(fo.take(i as int), dd, s - proof_score) + partial
                        * weight_at(dd.take(j + 1), s - proof_score - form_score) by {
                        let t = s - proof_score - form_score;
                        lemma_weight_at_step(dd, j as int, t);
                        let wp = weight_at(dd.take(j as int), t);
                        let wn = weight_at(dd.take(j + 1), t);
                        if s == idx {
                            assert(partial * wn == partial * wp + partial * def_weight) by (nonlinear_arith)
                                requires
                                    wn == wp + def_weight,
                            ;
                        } else {
                            assert(wn == wp);
                        }
                    }
                }
                j = j + 1;
            }
            assert(dd.take(dd.len() as int) =~= dd);
        }
        proof {
            assert forall|s: int| 0 <= s < 19 implies #[trigger] distribution@[s] == start[s] + w
                * joint_weight_at(fo.take(i + 1), dd, s - proof_score) by {
                lemma_joint_step(fo, dd, i as int, s - proof_score);
                let jp = joint_weight_at(fo.take(i as int), dd, s - proof_score);
                let wf = weight_at(dd, s - proof_score - form_score);
                assert(w * (jp + f * wf) == w * jp + (w * f) * wf) by (nonlinear_arith);
                if partial == 0 {
                    assert((w * f) * wf == 0) by (nonlinear_arith)
                        requires
                            w * f == 0,
                    ;
                }
            }
        }
        i = i + 1;
    }
    assert(fo.take(fo.len() as int) =~= fo);
}

/// How many cards of each kind are learned: `k_def` definitions, `k_pf`
/// proof formulations, `k_pp` full proofs (among those formulations) and
/// `k_extra` formulations that are not proofs.
#[derive(Clone, Copy, Debug)]
pub struct Plan {
    pub k_def: u8,
    pub k_extra: u8,
    pub k_pf: u8,
    pub k_pp: u8,
}

/// The counts a ticket distribution is defined for.
pub open spec fn plan_in_deck(plan: Plan) -> bool {
    plan.k_def <= 24 && plan.k_pp <= plan.k_pf && plan.k_pf <= 33
}

/// The number of proof draws with `a` cards whose proof is known, `b`
/// cards whose formulation only is known, and `4 - a - b` unknown cards.
pub open spec fn proof_draw_weight(k_pf: nat, k_pp: nat, a: nat, b: nat) -> nat {
    if a + b <= 4 && k_pp <= k_pf <= 33 {
        binomial(k_pp, a) * binomial((k_pf - k_pp) as nat, b) * binomial(
            (33 - k_pf) as nat,
            (4 - a - b) as nat,
        )
    } else {
        0
    }
}

/// The weight of score `score` among the tickets whose proof draw has `a`
/// known proofs and `b` known formulations only. With `a` known proofs the
/// full proof asked is a known one in `a` of the 4 cases, which adds 1.
pub open spec fn branch_mass(plan: Plan, a: nat, b: nat, score: int) -> nat {
    let p = proof_draw_weight(plan.k_pf as nat, plan.k_pp as nat, a, b);
    let forms = form_outcomes(plan.k_pf as nat, plan.k_extra as nat, a + b);
    let defs = def_outcomes(plan.k_def as nat);
    p * a * joint_weight_at(forms, defs, score - (3 * a + b + 1)) + p * ((4 - a) as nat)
        * joint_weight_at(forms, defs, score - (3 * a + b))
}

/// `branch_mass` summed over `b < end`.
pub open spec fn row_mass(plan: Plan, a: nat, end: nat, score: int) -> nat
    decreases end,
{
    if end == 0 {
        0
    } else {
        row_mass(plan, a, (end - 1) as nat, score) + branch_mass(plan, a, (end - 1) as nat, score)
    }
}

/// `row_mass` over every `b <= 4 - a`, summed over `a < end`.
pub open spec fn grid_mass(plan: Plan, end: nat, score: int) -> nat
    decreases end,
{
    if end == 0 {
        0
    } else {
        grid_mass(plan, (end - 1) as nat, score) + row_mass(
            plan,
            (end - 1) as nat,
            (5 - (end - 1)) as nat,
            score,
        )
    }
}

/// The weight, in units of `1 / PROBABILITY_SCALE`, of the tickets that
/// give `score` under `plan`.
pub open spec fn ticket_mass(plan: Plan, score: int) -> nat {
    grid_mass(plan, 5, score)
}

/// The weight of all tickets of one branch.
pub open spec fn branch_total(plan: Plan, a: nat, b: nat) -> nat {
    4 * proof_draw_weight(plan.k_pf as nat, plan.k_pp as nat, a, b) * weight_total(
        form_outcomes(plan.k_pf as nat, plan.k_extra as nat, a + b),
    ) * weight_total(def_outcomes(plan.k_def as nat))
}

pub open spec fn row_total(plan: Plan, a: nat, end: nat) -> nat
    decreases end,
{
    if end == 0 {
        0
    } else {
        row_total(plan, a, (end - 1) as nat) + branch_total(plan, a, (end - 1) as nat)
    }
}

pub open spec fn grid_total(plan: Plan, end: nat) -> nat
    decreases end,
{
    if end == 0 {
        0
    } else {
        grid_total(plan, (end - 1) as nat) + row_total(plan, (end - 1) as nat, (5 - (end - 1)) as nat)
    }
}

/// The weight of all tickets under `plan`.
pub open spec fn ticket_total(plan: Plan) -> nat {
    grid_total(plan, 5)
}

/// Proof draws with `a` known proofs, summed over `b < end`.
pub open spec fn proof_row_weight(k_pf: nat, k_pp: nat, a: nat, end: nat) -> nat
    decreases end,
{
    if end == 0 {
        0
    } else {
        proof_row_weight(k_pf, k_pp, a, (end - 1) as nat) + proof_draw_weight(k_pf, k_pp, a, (end - 1) as nat)
    }
}

/// Proof draws summed over `a < end`.
pub open spec fn proof_grid_weight(k_pf: nat, k_pp: nat, end: nat) -> nat
    decreases end,
{
    if end == 0 {
        0
    } else {
        proof_grid_weight(k_pf, k_pp, (end - 1) as nat) + proof_row_weight(
            k_pf,
            k_pp,
            (end - 1) as nat,
            (5 - (end - 1)) as nat,
        )
    }
}

proof fn lemma_proof_row_weight(k_pf: nat, k_pp: nat, a: nat, end: nat)
    requires
        k_pp <= k_pf <= 33,
        a <= 4,
        end <= 5 - a,
    ensures
        proof_row_weight(k_pf, k_pp, a, end) == binomial(k_pp, a) * vandermonde_sum(
            (k_pf - k_pp) as nat,
            (33 - k_pf) as nat,
            (4 - a) as nat,
            end,
        ),
    decreases end,
{
    let q = (k_pf - k_pp) as nat;
    let r = (33 - k_pf) as nat;
    let d = (4 - a) as nat;
    if end > 0 {
        let b = (end - 1) as nat;
        lemma_proof_row_weight(k_pf, k_pp, a, b);
        let c = binomial(k_pp, a);
        let v = vandermonde_sum(q, r, d, b);
        let x = binomial(q, b);
        let y = binomial(r, (d - b) as nat);
        assert(vandermonde_term(q, r, d, b) == x * y);
        assert(proof_draw_weight(k_pf, k_pp, a, b) == c * x * y);
        assert(c * v + c * x * y == c * (v + x * y)) by (nonlinear_arith);
    } else {
        assert(binomial(k_pp, a) * 0 == 0) by (nonlinear_arith);
    }
}

proof fn lemma_proof_grid_weight(k_pf: nat, k_pp: nat, end: nat)
    requires
        k_pp <= k_pf <= 33,
        end <= 5,
    ensures
        proof_grid_weight(k_pf, k_pp, end) == vandermonde_sum(k_pp, (33 - k_pp) as nat, 4, end),
    decreases end,
{
    if end > 0 {
        let a = (end - 1) as nat;
        lemma_proof_grid_weight(k_pf, k_pp, a);
        lemma_proof_row_weight(k_pf, k_pp, a, (5 - a) as nat);
        lemma_vandermonde((k_pf - k_pp) as nat, (33 - k_pf) as nat, (4 - a) as nat);
        assert((k_pf - k_pp) as nat + (33 - k_pf) as nat == (33 - k_pp) as nat);
    }
}

/// All proof draws together are the `C(33, 4)` draws of 4 cards out of 33.
pub proof fn lemma_proof_draws_total(k_pf: nat, k_pp: nat)
    requires
        k_pp <= k_pf <= 33,
    ensures
        proof_grid_weight(k_pf, k_pp, 5) == 40920,
{
    lemma_proof_grid_weight(k_pf, k_pp, 5);
    lemma_vandermonde(k_pp, (33 - k_pp) as nat, 4);
    lemma_deck_sizes();
}

/// One proof draw weight is at most `C(33, 4)`.
proof fn lemma_proof_draw_weight_bound(k_pf: nat, k_pp: nat, a: nat, b: nat)
    requires
        k_pp <= k_pf <= 33,
        a + b <= 4,
    ensures
        proof_draw_weight(k_pf, k_pp, a, b) <= 40920,
{
    let q = (k_pf - k_pp) as nat;
    let r = (33 - k_pf) as nat;
    let d = (4 - a) as nat;
    lemma_vandermonde_term_le_sum(q, r, d, b, d + 1);
    lemma_vandermonde(q, r, d);
    lemma_vandermonde_term_le_sum(k_pp, (33 - k_pp) as nat, 4, a, 5);
    lemma_vandermonde(k_pp, (33 - k_pp) as nat, 4);
    lemma_deck_sizes();
    let c = binomial(k_pp, a);
    let x = binomial(q, b);
    let y = binomial(r, (d - b) as nat);
    assert(vandermonde_term(q, r, d, b) == x * y);
    assert(q + r == 33 - k_pp);
    assert(vandermonde_term(k_pp, (33 - k_pp) as nat, 4, a) == c * binomial(q + r, d));
    assert(c * x * y <= c * binomial(q + r, d)) by (nonlinear_arith)
        requires
            x * y <= binomial(q + r, d),
    ;
}

proof fn lemma_branch_mass_le_total(plan: Plan, a: nat, b: nat, score: int)
    requires
        a <= 4,
    ensures
        branch_mass(plan, a, b, score) <= branch_total(plan, a, b),
{
    let p = proof_draw_weight(plan.k_pf as nat, plan.k_pp as nat, a, b);
    let forms = form_outcomes(plan.k_pf as nat, plan.k_extra as nat, a + b);
    let defs = def_outcomes(plan.k_def as nat);
    let t = weight_total(forms) * weight_total(defs);
    let j1 = joint_weight_at(forms, defs, score - (3 * a + b + 1));
    let j2 = joint_weight_at(forms, defs, score - (3 * a + b));
    lemma_joint_le_product(forms, defs, score - (3 * a + b + 1));
    lemma_joint_le_product(forms, defs, score - (3 * a + b));
    let na = (4 - a) as nat;
    assert(p * a * j1 + p * na * j2 <= 4 * p * weight_total(forms) * weight_total(defs))
        by (nonlinear_arith)
        requires
            j1 <= t,
            j2 <= t,
            t == weight_total(forms) * weight_total(defs),
            a + na == 4,
    ;
}

proof fn lemma_row_mass_le_total(plan: Plan, a: nat, end: nat, score: int)
    requires
        a <= 4,
    ensures
        row_mass(plan, a, end, score) <= row_total(plan, a, end),
    decreases end,
{
    if end > 0 {
        lemma_row_mass_le_total(plan, a, (end - 1) as nat, score);
        lemma_branch_mass_le_total(plan, a, (end - 1) as nat, score);
    }
}

proof fn lemma_grid_mass_le_total(plan: Plan, end: nat, score: int)
    requires
        end <= 5,
    ensures
        grid_mass(plan, end, score) <= grid_total(plan, end),
    decreases end,
{
    if end > 0 {
        lemma_grid_mass_le_total(plan, (end - 1) as nat, score);
        lemma_row_mass_le_total(plan, (end - 1) as nat, (5 - (end - 1)) as nat, score);
    }
}

proof fn lemma_row_total_bound(plan: Plan, a: nat, end: nat)
    requires
        plan_in_deck(plan),
        a <= 4,
    ensures
        row_total(plan, a, end) <= 8015040 * proof_row_weight(
            plan.k_pf as nat,
            plan.k_pp as nat,
            a,
            end,
        ),
    decreases end,
{
    if end > 0 {
        let b = (end - 1) as nat;
        lemma_row_total_bound(plan, a, b);
        lemma_def_outcomes_facts(plan.k_def as nat);
        lemma_form_outcomes_facts(plan.k_pf as nat, plan.k_extra as nat, a + b);
        let p = proof_draw_weight(plan.k_pf as nat, plan.k_pp as nat, a, b);
        let tf = weight_total(form_outcomes(plan.k_pf as nat, plan.k_extra as nat, a + b));
        let td = weight_total(def_outcomes(plan.k_def as nat));
        assert(4 * p * tf * td <= 8015040 * p) by (nonlinear_arith)
            requires
                tf <= 990,
                td == 2024,
        ;
    }
}

proof fn lemma_grid_total_bound(plan: Plan, end: nat)
    requires
        plan_in_deck(plan),
        end <= 5,
    ensures
        grid_total(plan, end) <= 8015040 * proof_grid_weight(plan.k_pf as nat, plan.k_pp as nat, end),
    decreases end,
{
    if end > 0 {
        lemma_grid_total_bound(plan, (end - 1) as nat);
        lemma_row_total_bound(plan, (end - 1) as nat, (5 - (end - 1)) as nat);
    }
}

/// The tickets of a plan weigh at most `PROBABILITY_SCALE`, and every score
/// at most as much as all of them.
pub proof fn lemma_ticket_mass_bound(plan: Plan, score: int)
    requires
        plan_in_deck(plan),
    ensures
        ticket_mass(plan, score) <= ticket_total(plan),
        ticket_total(plan) <= PROBABILITY_SCALE,
{
    lemma_grid_mass_le_total(plan, 5, score);
    lemma_grid_total_bound(plan, 5);
    lemma_proof_draws_total(plan.k_pf as nat, plan.k_pp as nat);
}

proof fn lemma_row_mass_monotone(plan: Plan, a: nat, i: nat, j: nat, score: int)
    requires
        i <= j,
    ensures
        row_mass(plan, a, i, score) <= row_mass(plan, a, j, score),
    decreases j,
{
    if i < j {
        lemma_row_mass_monotone(plan, a, i, (j - 1) as nat, score);
    }
}

proof fn lemma_grid_mass_monotone(plan: Plan, i: nat, j: nat, score: int)
    requires
        i <= j,
    ensures
        grid_mass(plan, i, score) <= grid_mass(plan, j, score),
    decreases j,
{
    if i < j {
        lemma_grid_mass_monotone(plan, i, (j - 1) as nat, score);
    }
}

/// A branch without any proof draw weighs nothing.
proof fn lemma_branch_mass_zero(plan: Plan, a: nat, b: nat, score: int)
    requires
        proof_draw_weight(plan.k_pf as nat, plan.k_pp as nat, a, b) == 0,
    ensures
        branch_mass(plan, a, b, score) == 0,
{
    let p = proof_draw_weight(plan.k_pf as nat, plan.k_pp as nat, a, b);
    let forms = form_outcomes(plan.k_pf as nat, plan.k_extra as nat, a + b);
    let defs = def_outcomes(plan.k_def as nat);
    let j1 = joint_weight_at(forms, defs, score - (3 * a + b + 1));
    let j2 = joint_weight_at(forms, defs, score - (3 * a + b));
    let na = (4 - a) as nat;
    assert(p * a * j1 + p * na * j2 == 0) by (nonlinear_arith)
        requires
            p == 0,
    ;
}

/// Beyond the known formulations (`b > k_pf - k_pp`) a row has no more weight.
proof fn lemma_row_mass_tail_zero(plan: Plan, a: nat, from: nat, end: nat, score: int)
    requires
        plan_in_deck(plan),
        plan.k_pf - plan.k_pp < from <= end,
    ensures
        row_mass(plan, a, end, score) == row_mass(plan, a, from, score),
    decreases end,
{
    if from < end {
        let b = (end - 1) as nat;
        lemma_row_mass_tail_zero(plan, a, from, b, score);
        if a + b <= 4 {
            lemma_binomial_zero_above((plan.k_pf - plan.k_pp) as nat, b);
            let x = binomial(plan.k_pp as nat, a);
            let z = binomial((33 - plan.k_pf) as nat, (4 - a - b) as nat);
            assert(x * 0 * z == 0) by (nonlinear_arith);
        }
        lemma_branch_mass_zero(plan, a, b, score);
    }
}

/// Rows with more known proofs than learned (`a > k_pp`) have no weight.
proof fn lemma_grid_mass_tail_zero(plan: Plan, from: nat, end: nat, score: int)
    requires
        plan_in_deck(plan),
        plan.k_pp < from <= end,
    ensures
        grid_mass(plan, end, score) == grid_mass(plan, from, score),
    decreases end,
{
    if from < end {
        let a = (end - 1) as nat;
        lemma_grid_mass_tail_zero(plan, from, a, score);
        lemma_row_zero(plan, a, (5 - a) as nat, score);
    }
}

proof fn lemma_row_zero(plan: Plan, a: nat, end: nat, score: int)
    requires
        plan_in_deck(plan),
        plan.k_pp < a,
    ensures
        row_mass(plan, a, end, score) == 0,
    decreases end,
{
    if end > 0 {
        let b = (end - 1) as nat;
        lemma_row_zero(plan, a, b, score);
        if a + b <= 4 {
            lemma_binomial_zero_above(plan.k_pp as nat, a);
            let y = binomial((plan.k_pf - plan.k_pp) as nat, b);
            let z = binomial((33 - plan.k_pf) as nat, (4 - a - b) as nat);
            assert(0 * y * z == 0) by (nonlinear_arith);
        }
        lemma_branch_mass_zero(plan, a, b, score);
    }
}

/// The formulation distributions for every number `0..=4` of known proof
/// cards on the ticket.
pub(crate) fn forms_by_drawn(k_pf: u8, k_extra: u8) -> (forms: Vec<Vec<Outcome>>)
    ensures
        forms@.len() == 5,
        forall|d: int| 0 <= d < 5 ==> #[trigger] forms@[d]@ == form_outcomes(k_pf as nat, k_extra as nat, d as nat),
{
    let mut forms: Vec<Vec<Outcome>> = Vec::new();
    let mut drawn: u8 = 0;
    while drawn < 5
        invariant
            drawn <= 5,
            forms@.len() == drawn,
            forall|d: int| 0 <= d < drawn ==> #[trigger] forms@[d]@ == form_outcomes(k_pf as nat, k_extra as nat, d as nat),
        decreases 5 - drawn,
    {
        forms.push(form_pmf(k_pf, k_extra, drawn));
        drawn = drawn + 1;
    }
    forms
}

/// `defs` and `forms` are the definition distribution and the formulation
/// distributions, for `0..=4` known proof cards, of `plan`.
pub open spec fn ticket_inputs(plan: Plan, defs: Seq<Outcome>, forms: Seq<Vec<Outcome>>) -> bool {
    &&& plan_in_deck(plan)
    &&& defs == def_outcomes(plan.k_def as nat)
    &&& forms.len() == 5
    &&& forall|d: int|
        0 <= d < 5 ==> #[trigger] forms[d]@ == form_outcomes(
            plan.k_pf as nat,
            plan.k_extra as nat,
            d as nat,
        )
}

/// Adds the branch of `a` known proofs and `b` known formulations only,
/// drawn in `proof_weight` ways, to `distribution`.
fn add_branch(
    distribution: &mut [u64; 19],
    plan: Plan,
    a: u32,
    b: u32,
    proof_weight: u64,
    defs: &Vec<Outcome>,
    forms: &Vec<Vec<Outcome>>,
)
    requires
        ticket_inputs(plan, defs@, forms@),
        a + b <= 4,
        proof_weight == proof_draw_weight(plan.k_pf as nat, plan.k_pp as nat, a as nat, b as nat),
        forall|s: int|
            0 <= s < 19 ==> old(distribution)@[s] + branch_mass(plan, a as nat, b as nat, s)
                <= PROBABILITY_SCALE,
    ensures
        forall|s: int|
            0 <= s < 19 ==> #[trigger] final(distribution)@[s] == old(distribution)@[s] + branch_mass(
                plan,
                a as nat,
                b as nat,
                s,
            ),
{
    let ghost an = a as nat;
    let ghost bn = b as nat;
    let ghost start = distribution@;
    let forms_here = &forms[(a + b) as usize];
    let ghost fo = forms_here@;
    let ghost dd = defs@;
    proof {
        lemma_def_outcomes_facts(plan.k_def as nat);
        lemma_form_outcomes_facts(plan.k_pf as nat, plan.k_extra as nat, an + bn);
        lemma_proof_draw_weight_bound(plan.k_pf as nat, plan.k_pp as nat, an, bn);
        assert(proof_weight * a <= 163680 && proof_weight * (4 - a) <= 163680) by (nonlinear_arith)
            requires
                proof_weight <= 40920,
                a <= 4,
        ;
    }
    let with_body = proof_weight * (a as u64);
    let without_body = proof_weight * ((4 - a) as u64);
    let ghost w2 = without_body as nat;
    let first_shift = (3 * a + b + 1) as usize;
    let second_shift = (3 * a + b) as usize;
    proof {
        assert forall|s: int| 0 <= s < 19 implies start[s] + with_body * joint_weight_at(
            fo,
            dd,
            s - first_shift,
        ) <= u64::MAX by {
            let j2 = joint_weight_at(fo, dd, s - second_shift);
            assert(w2 * j2 >= 0) by (nonlinear_arith);
        }
        lemma_pairs_fit(first_shift as int, with_body as nat, fo, dd);
        lemma_pairs_fit(second_shift as int, without_body as nat, fo, dd);
    }
    accumulate_scores(distribution, first_shift, with_body, forms_here, defs);
    let ghost middle = distribution@;
    proof {
        assert forall|s: int| 0 <= s < 19 implies middle[s] + without_body * joint_weight_at(
            fo,
            dd,
            s - second_shift,
        ) <= u64::MAX by {}
    }
    accumulate_scores(distribution, second_shift, without_body, forms_here, defs);
}

/// The ticket distribution of `plan`, from its definition distribution and
/// its formulation distributions.
pub(crate) fn ticket_distribution(
    plan: Plan,
    defs: &Vec<Outcome>,
    forms: &Vec<Vec<Outcome>>,
) -> (distribution: [u64; 19])
    requires
        ticket_inputs(plan, defs@, forms@),
    ensures
        forall|s: int| 0 <= s < 19 ==> #[trigger] distribution@[s] == ticket_mass(plan, s),
{
    let k_pf = plan.k_pf as u32;
    let k_pp = plan.k_pp as u32;
    let mut distribution: [u64; 19] = [0u64; 19];
    assert forall|s: int| 0 <= s < 19 implies #[trigger] distribution@[s] == grid_mass(plan, 0, s) by {}
    let mut a: u32 = 0;
    while a <= 4 && a <= k_pp
        invariant
            ticket_inputs(plan, defs@, forms@),
            k_pf == plan.k_pf,
            k_pp == plan.k_pp,
            a <= 5,
            a <= k_pp + 1,
            forall|s: int| 0 <= s < 19 ==> #[trigger] distribution@[s] == grid_mass(plan, a as nat, s),
        decreases 5 - a,
    {
        let max_b = if 4 - a < k_pf - k_pp { 4 - a } else { k_pf - k_pp };
        let mut b: u32 = 0;
        while b <= max_b
            invariant
                ticket_inputs(plan, defs@, forms@),
                k_pf == plan.k_pf,
                k_pp == plan.k_pp,
                a <= 4,
                a <= k_pp,
                max_b <= 4 - a,
                max_b <= k_pf - k_pp,
                b <= max_b + 1,
                forall|s: int|
                    0 <= s < 19 ==> #[trigger] distribution@[s] == grid_mass(plan, a as nat, s)
                        + row_mass(plan, a as nat, b as nat, s),
            decreases max_b + 1 - b,
        {
            let ghost an = a as nat;
            let ghost bn = b as nat;
            let c = 4 - a - b;
            if c <= TOTAL_PROOF_CARDS - k_pf {
                proof {
                    lemma_proof_draw_weight_bound(k_pf as nat, k_pp as nat, an, bn);
                    lemma_binomial_positive(k_pp as nat, an);
                    lemma_binomial_positive((k_pf - k_pp) as nat, bn);
                    lemma_binomial_positive((33 - k_pf) as nat, c as nat);
                    let x = binomial(k_pp as nat, an);
                    let y = binomial((k_pf - k_pp) as nat, bn);
                    let z = binomial((33 - k_pf) as nat, c as nat);
                    assert(x <= x * y * z && y <= x * y * z && z <= x * y * z && x * y <= x * y * z)
                        by (nonlinear_arith)
                        requires
                            x >= 1,
                            y >= 1,
                            z >= 1,
                    ;
                }
                let known = comb(k_pp, a).unwrap();
                let formulated = comb(k_pf - k_pp, b).unwrap();
                let unknown = comb(TOTAL_PROOF_CARDS - k_pf, c).unwrap();
                let proof_weight = known * formulated * unknown;
                if proof_weight != 0 {
                    proof {
                        assert forall|s: int| 0 <= s < 19 implies distribution@[s] + branch_mass(
                            plan,
                            an,
                            bn,
                            s,
                        ) <= PROBABILITY_SCALE by {
                            lemma_row_mass_monotone(plan, an, bn + 1, (5 - an) as nat, s);
                            lemma_grid_mass_monotone(plan, an + 1, 5, s);
                            lemma_ticket_mass_bound(plan, s);
                        }
                    }
                    add_branch(&mut distribution, plan, a, b, proof_weight, defs, forms);
                } else {
                    proof {
                        assert forall|s: int| 0 <= s < 19 implies branch_mass(plan, an, bn, s) == 0 by {
                            lemma_branch_mass_zero(plan, an, bn, s);
                        }
                    }
                }
            } else {
                proof {
                    lemma_binomial_zero_above((33 - k_pf) as nat, c as nat);
                    let x = binomial(k_pp as nat, an);
                    let y = binomial((k_pf - k_pp) as nat, bn);
                    assert(x * y * 0 == 0) by (nonlinear_arith);
                    assert forall|s: int| 0 <= s < 19 implies branch_mass(plan, an, bn, s) == 0 by {
                        lemma_branch_mass_zero(plan, an, bn, s);
                    }
                }
            }
            b = b + 1;
        }
        proof {
            assert forall|s: int| 0 <= s < 19 implies #[trigger] distribution@[s] == grid_mass(
                plan,
                (a + 1) as nat,
                s,
            ) by {
                if max_b < 4 - a {
                    lemma_row_mass_tail_zero(plan, a as nat, (max_b + 1) as nat, (5 - a) as nat, s);
                }
            }
        }
        a = a + 1;
    }
    proof {
        assert forall|s: int| 0 <= s < 19 implies #[trigger] distribution@[s] == ticket_mass(plan, s) by {
            if a < 5 {
                lemma_grid_mass_tail_zero(plan, a as nat, 5, s);
            }
        }
    }
    distribution
}

/// The ticket distribution of a plan as a list of 19 weights.
pub open spec fn ticket_cells(plan: Plan) -> Seq<u64> {
    Seq::new(19, |s: int| ticket_mass(plan, s) as u64)
}

/// The exact score distribution of one ticket: entry `s` is the number of
/// equally likely outcomes, out of `PROBABILITY_SCALE`, that score `s`.
pub fn ticket_pmf(k_def: u8, k_pf: u8, k_pp: u8, k_extra: u8) -> (distribution: [u64; 19])
    requires
        k_def <= TOTAL_DEF_CARDS,
        k_pp <= k_pf,
        k_pf <= TOTAL_PROOF_CARDS,
    ensures
        distribution@ == ticket_cells(Plan { k_def, k_extra, k_pf, k_pp }),
        forall|s: int|
            0 <= s < 19 ==> #[trigger] distribution@[s] == ticket_mass(
                Plan { k_def, k_extra, k_pf, k_pp },
                s,
            ),
{
    let plan = Plan { k_def, k_extra, k_pf, k_pp };
    let defs = def_pmf(k_def);
    let forms = forms_by_drawn(k_pf, k_extra);
    let distribution = ticket_distribution(plan, &defs, &forms);
    proof {
        assert forall|s: int| 0 <= s < 19 implies ticket_mass(plan, s) < 0x1_0000_0000_0000_0000 by {
            lemma_ticket_mass_bound(plan, s);
        }
        assert(distribution@ =~= ticket_cells(plan));
    }
    distribution
}

/// The weight of the scores from `score` up of a distribution.
pub open spec fn upper_tail(distribution: Seq<u64>, score: int) -> nat
    decreases distribution.len() - score,
{
    if 0 <= score < distribution.len() {
        distribution[score] as nat + upper_tail(distribution, score + 1)
    } else {
        0
    }
}

/// At least 90% of the tickets reach `score`.
pub open spec fn meets_target(distribution: Seq<u64>, score: int) -> bool {
    10 * upper_tail(distribution, score) >= 9 * PROBABILITY_SCALE
}

/// The highest score up to `score` reached with probability at least 90%,
/// or 0 when there is none.
pub open spec fn passing_score_from(distribution: Seq<u64>, score: nat) -> nat
    decreases score,
{
    if meets_target(distribution, score as int) {
        score
    } else if score == 0 {
        0
    } else {
        passing_score_from(distribution, (score - 1) as nat)
    }
}

/// The highest score reached with probability at least 90%, or 0 when there
/// is none.
pub open spec fn passing_score(distribution: Seq<u64>) -> nat {
    passing_score_from(distribution, 18)
}

proof fn lemma_passing_score_from(distribution: Seq<u64>, n: nat, r: nat)
    requires
        r <= n,
        meets_target(distribution, r as int) || r == 0,
        forall|s: int| r < s <= n ==> !meets_target(distribution, s),
    ensures
        passing_score_from(distribution, n) == r,
    decreases n,
{
    if n > r {
        lemma_passing_score_from(distribution, (n - 1) as nat, r);
    }
}

/// The passing score is the highest score that at least 90% of the tickets
/// reach: every higher score is reached less often.
pub proof fn lemma_passing_score_is_highest(distribution: Seq<u64>)
    ensures
        passing_score(distribution) <= 18,
        meets_target(distribution, passing_score(distribution) as int) || passing_score(distribution) == 0,
        forall|s: int|
            passing_score(distribution) < s <= 18 ==> !meets_target(distribution, s),
{
    lemma_passing_score_from_facts(distribution, 18);
}

proof fn lemma_passing_score_from_facts(distribution: Seq<u64>, n: nat)
    ensures
        passing_score_from(distribution, n) <= n,
        meets_target(distribution, passing_score_from(distribution, n) as int)
            || passing_score_from(distribution, n) == 0,
        forall|s: int| passing_score_from(distribution, n) < s <= n ==> !meets_target(distribution, s),
    decreases n,
{
    if !meets_target(distribution, n as int) && n > 0 {
        lemma_passing_score_from_facts(distribution, (n - 1) as nat);
    }
}

/// The highest score that at least 90% of the tickets of `distribution`
/// reach, or 0 when no score does.
pub fn check_score(distribution: &[u64; 19]) -> (score: usize)
    ensures
        score == passing_score(distribution@),
        score <= MAX_TOTAL_SCORE,
        meets_target(distribution@, score as int) || score == 0,
        forall|s: int| score < s <= 18 ==> !meets_target(distribution@, s),
{
    proof {
        lemma_passing_score_is_highest(distribution@);
    }
    let ghost d = distribution@;
    let mut cumulative: u128 = 0;
    let mut score: usize = MAX_TOTAL_SCORE + 1;
    assert(d.len() == 19);
    while score > 0
        invariant
            d == distribution@,
            d.len() == 19,
            score <= 19,
            cumulative == upper_tail(d, score as int),
            cumulative <= (19 - score) * 0xffff_ffff_ffff_ffffu64,
            forall|s: int| score <= s <= 18 ==> !meets_target(d, s),
        decreases score,
    {
        score = score - 1;
        cumulative = cumulative + distribution[score] as u128;
        if 10 * cumulative >= 9 * (PROBABILITY_SCALE as u128) {
            proof {
                lemma_passing_score_from(d, 18, score as nat);
            }
            return score;
        }
    }
    proof {
        lemma_passing_score_from(d, 18, 0);
    }
    0
}

} // verus!
