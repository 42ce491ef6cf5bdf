use math_strat::helpers::{comb, prefix_sums};

#[test]
fn comb_gives_deck_draw_counts() {
    assert_eq!(comb(24, 3), Some(2024));
    assert_eq!(comb(45, 2), Some(990));
    assert_eq!(comb(33, 4), Some(40920));
}

#[test]
fn comb_edge_cases() {
    assert_eq!(comb(5, 7), Some(0));
    assert_eq!(comb(0, 0), Some(1));
    assert_eq!(comb(10, 0), Some(1));
    assert_eq!(comb(10, 10), Some(1));
    assert_eq!(comb(10, 1), Some(10));
    assert_eq!(comb(63, 31), Some(916_312_070_471_295_267));
    assert_eq!(comb(100, 2), Some(4950));
    assert_eq!(comb(67, 33), Some(14_226_520_737_620_288_370));
    assert_eq!(comb(u32::MAX, 1), Some(4_294_967_295));
}

#[test]
fn comb_is_symmetric() {
    for n in 0..=40u32 {
        for k in 0..=n {
            assert_eq!(comb(n, k), comb(n, n - k));
        }
    }
}

#[test]
fn comb_follows_pascal_rule() {
    for n in 1..=50u32 {
        for k in 1..=n {
            assert_eq!(comb(n, k).unwrap(), comb(n - 1, k - 1).unwrap() + comb(n - 1, k).unwrap());
        }
    }
}

#[test]
fn prefix_sums_are_running_totals() {
    assert_eq!(prefix_sums(&[2, 4, 7]), vec![0, 2, 6, 13]);
    assert_eq!(prefix_sums(&[]), vec![0]);
    assert_eq!(prefix_sums(&[u32::MAX, u32::MAX]), vec![0, 4_294_967_295, 8_589_934_590]);
}

#[test]
fn comb_is_none_beyond_u64() {
    assert_eq!(comb(68, 34), None);
    assert_eq!(comb(100, 50), None);
    assert_eq!(comb(u32::MAX, 2), Some(9_223_372_030_412_324_865));
    assert_eq!(comb(u32::MAX, 3), None);
    assert_eq!(comb(u32::MAX, u32::MAX - 3), None);
}

#[test]
fn comb_laws_hold_for_every_n() {
    for &n in &[0u32, 1, 67, 68, 1000, u32::MAX] {
        assert_eq!(comb(n, 0), Some(1));
        assert_eq!(comb(n, n), Some(1));
        for &k in &[1u32, 2, 34, n / 2] {
            if k <= n {
                assert_eq!(comb(n, k), comb(n, n - k));
            }
        }
        if n < u32::MAX {
            assert_eq!(comb(n, n + 1), Some(0));
        }
    }
}
