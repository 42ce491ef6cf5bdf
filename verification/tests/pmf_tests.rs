use math_strat::pmf::{
    check_score, def_pmf, form_pmf, ticket_pmf, FORM_DRAW_WAYS, MAX_TOTAL_SCORE,
    PROBABILITY_SCALE,
};

#[test]
fn def_pmf_known_counts() {
    assert_eq!(def_pmf(0), vec![(0, 2024)]);
    assert_eq!(def_pmf(24), vec![(3, 2024)]);
    assert_eq!(def_pmf(10), vec![(0, 364), (1, 910), (2, 630), (3, 120)]);
    assert_eq!(def_pmf(1), vec![(0, 1771), (1, 253)]);
}

#[test]
fn def_pmf_weights_add_up_to_all_draws() {
    for k in 0..=24u8 {
        let total: u64 = def_pmf(k).iter().map(|o| o.1).sum();
        assert_eq!(total, 2024, "k_def {}", k);
    }
}

#[test]
fn form_pmf_cases() {
    assert_eq!(form_pmf(0, 0, 0), vec![(0, FORM_DRAW_WAYS)]);
    assert_eq!(form_pmf(3, 0, 4), vec![(0, 990)]);
    assert_eq!(form_pmf(3, 2, 1), vec![(0, 820), (1, 164), (2, 6)]);
    assert_eq!(form_pmf(40, 10, 0), vec![]);
    assert_eq!(form_pmf(0, 45, 0), vec![(2, 990)]);
}

#[test]
fn form_pmf_weights_add_up_when_forms_fit() {
    for k_pf in 0..=33u8 {
        for k_extra in 0..=49u8 {
            for drawn in 0..=4u8 {
                let left = (k_pf as u32).saturating_sub(drawn as u32) + k_extra as u32;
                let total: u64 = form_pmf(k_pf, k_extra, drawn).iter().map(|o| o.1).sum();
                assert_eq!(total, if left <= 45 { 990 } else { 0 });
            }
        }
    }
}

#[test]
fn ticket_pmf_exact_distribution() {
    let expected: [u64; 19] = [
        15740524800, 56508484032, 75999032928, 56279570256, 40167801576, 35736708168,
        24732639792, 12017483352, 5785113096, 3148734288, 1322365296, 384469000, 110090544,
        34541192, 7169760, 688560, 20160, 0, 0,
    ];
    assert_eq!(ticket_pmf(10, 5, 3, 7), expected);
}

#[test]
fn ticket_pmf_nothing_learned_scores_zero() {
    let mut expected = [0u64; 19];
    expected[0] = PROBABILITY_SCALE;
    assert_eq!(ticket_pmf(0, 0, 0, 0), expected);
}

#[test]
fn ticket_pmf_everything_learned() {
    let d = ticket_pmf(24, 33, 33, 12);
    assert_eq!(d[16], 1987729920);
    assert_eq!(d[17], 54331284480);
    assert_eq!(d[18], 271656422400);
    assert_eq!(d.iter().sum::<u64>(), PROBABILITY_SCALE);
}

#[test]
fn ticket_pmf_loses_draws_when_forms_overflow_the_deck() {
    assert_eq!(ticket_pmf(0, 0, 0, 49), [0u64; 19]);
}

#[test]
fn ticket_pmf_sums_to_one_when_forms_fit() {
    for &(k_def, k_pf, k_pp, k_extra) in &[(0u8, 0u8, 0u8, 0u8), (3, 7, 2, 11), (24, 33, 10, 12), (12, 20, 20, 25)] {
        let d = ticket_pmf(k_def, k_pf, k_pp, k_extra);
        assert_eq!(d.iter().sum::<u64>(), PROBABILITY_SCALE);
    }
}

#[test]
fn check_score_edges() {
    assert_eq!(check_score(&[0u64; 19]), 0);
    let mut top = [0u64; 19];
    top[MAX_TOTAL_SCORE] = PROBABILITY_SCALE;
    assert_eq!(check_score(&top), 18);
    let mut split = [0u64; 19];
    split[5] = PROBABILITY_SCALE / 10 * 9;
    split[2] = PROBABILITY_SCALE / 10;
    assert_eq!(check_score(&split), 5);
    split[5] -= 1;
    split[2] += 1;
    assert_eq!(check_score(&split), 2);
}

#[test]
fn check_score_counts_exactly_ninety_percent() {
    let d = ticket_pmf(15, 0, 0, 22);
    let tail: u64 = d[2..].iter().sum();
    assert_eq!(tail * 10, PROBABILITY_SCALE * 9);
    assert_eq!(check_score(&d), 2);
}

#[test]
fn check_score_is_highest_score_reached_nine_times_in_ten() {
    let d = ticket_pmf(10, 5, 3, 7);
    let score = check_score(&d);
    assert_eq!(score, 1);
    let tail = |s: usize| d[s..].iter().sum::<u64>() as u128;
    assert!(tail(score) * 10 >= PROBABILITY_SCALE as u128 * 9);
    for s in score + 1..=MAX_TOTAL_SCORE {
        assert!(tail(s) * 10 < PROBABILITY_SCALE as u128 * 9);
    }
}

fn tails(d: &[u64; 19]) -> Vec<u64> {
    (0..=MAX_TOTAL_SCORE).map(|t| d[t..].iter().sum()).collect()
}

#[test]
fn learning_more_never_lowers_a_tail() {
    for &(k_def, k_pf, k_pp, k_extra) in &[(10u8, 5u8, 3u8, 7u8), (0, 0, 0, 0), (23, 33, 20, 11), (5, 12, 0, 32)] {
        let base = ticket_pmf(k_def, k_pf, k_pp, k_extra);
        let more_def = ticket_pmf(k_def + 1, k_pf, k_pp, k_extra);
        let more_form = ticket_pmf(k_def, k_pf, k_pp, k_extra + 1);
        for t in 0..=MAX_TOTAL_SCORE {
            assert!(tails(&more_def)[t] >= tails(&base)[t], "definition, score {}", t);
            assert!(tails(&more_form)[t] >= tails(&base)[t], "formulation, score {}", t);
        }
        assert!(check_score(&more_def) >= check_score(&base));
        assert!(check_score(&more_form) >= check_score(&base));
    }
}

#[test]
fn one_formulation_too_many_loses_the_draws() {
    let full = ticket_pmf(0, 0, 0, 45);
    assert_eq!(full.iter().sum::<u64>(), PROBABILITY_SCALE);
    let over = ticket_pmf(0, 0, 0, 46);
    assert_eq!(over.iter().sum::<u64>(), 0);
}
