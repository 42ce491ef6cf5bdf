use math_strat::plan::{compute_best, total_compute_iterations};
use math_strat::pmf::{check_score, ticket_pmf, PROBABILITY_SCALE};

#[test]
fn compute_best_matches_expected_table() {
    let expected: [(u64, u8, u8, u8, u8); 19] = [
        (0, 0, 0, 0, 0),
        (24, 0, 1, 11, 0),
        (42, 6, 0, 15, 0),
        (62, 14, 0, 16, 0),
        (86, 14, 0, 22, 0),
        (112, 16, 0, 26, 0),
        (142, 14, 1, 32, 0),
        (170, 19, 2, 33, 0),
        (198, 19, 16, 33, 0),
        (234, 24, 14, 33, 0),
        (272, 13, 0, 33, 21),
        (298, 15, 2, 33, 23),
        (332, 18, 13, 33, 23),
        (372, 17, 0, 33, 28),
        (404, 14, 1, 33, 31),
        (428, 13, 0, 33, 33),
        (454, 19, 2, 33, 33),
        (482, 19, 16, 33, 33),
        (518, 24, 14, 33, 33),
    ];
    let best = compute_best();
    assert_eq!(best.len(), 19);
    for (score, want) in expected.iter().enumerate() {
        let entry = best[score].expect("every score has a plan");
        assert_eq!((entry.cost, entry.k_def, entry.k_extra, entry.k_pf, entry.k_pp), *want, "score {}", score);
    }
}

#[test]
fn total_compute_iterations_counts_every_plan() {
    assert_eq!(total_compute_iterations(), 416_500);
}

#[test]
fn best_plans_reach_their_score_nine_times_in_ten() {
    let best = compute_best();
    for (score, entry) in best.iter().enumerate() {
        let entry = entry.expect("every score has a plan");
        let d = ticket_pmf(entry.k_def, entry.k_pf, entry.k_pp, entry.k_extra);
        assert_eq!(check_score(&d), score);
        let tail: u64 = d[score..].iter().sum();
        assert!(tail as u128 * 10 >= PROBABILITY_SCALE as u128 * 9);
    }
}

#[test]
fn total_compute_iterations_is_the_number_of_valid_plans() {
    let mut plans: u64 = 0;
    for k_def in 0..=24u32 {
        for k_pf in 0..=33u32 {
            for k_pp in 0..=33u32 {
                for k_extra in 0..=49u32 {
                    if k_def <= 24 && k_pp <= k_pf && k_extra + k_pf <= 49 {
                        plans += 1;
                    }
                }
            }
        }
    }
    assert_eq!(total_compute_iterations(), plans);
}
