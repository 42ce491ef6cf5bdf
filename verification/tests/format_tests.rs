use math_strat::format::{
    format_cost, format_duration, format_duration_with_seconds, push_decimal, ElapsedTime,
};

fn text(secs: u64, nanos: u32) -> String {
    format_duration(&ElapsedTime::new(secs, nanos))
}

#[test]
fn format_duration_milliseconds() {
    assert_eq!(text(0, 0), "0 мс");
    assert_eq!(text(0, 850_000_000), "850 мс");
    assert_eq!(text(0, 999_999_999), "999 мс");
}

#[test]
fn format_duration_seconds_with_one_decimal() {
    assert_eq!(text(1, 0), "1.0 сек");
    assert_eq!(text(12, 340_000_000), "12.3 сек");
    assert_eq!(text(59, 990_000_000), "60.0 сек");
}

#[test]
fn format_duration_minutes() {
    assert_eq!(text(60, 0), "1 мин 00 сек");
    assert_eq!(text(65, 400_000_000), "1 мин 05 сек");
    assert_eq!(text(3599, 0), "59 мин 59 сек");
}

#[test]
fn format_duration_hours() {
    assert_eq!(text(3600, 0), "1 ч 00 мин 00 сек");
    assert_eq!(text(3723, 0), "1 ч 02 мин 03 сек");
    assert_eq!(text(36_000 * 10 + 61, 0), "100 ч 01 мин 01 сек");
}

#[test]
fn elapsed_time_carries_whole_seconds() {
    let t = ElapsedTime::new(1, 1_500_000_000);
    assert_eq!(t.as_secs(), 2);
    assert_eq!(t.subsec_nanos(), 500_000_000);
    assert_eq!(format_duration(&t), "2.5 сек");
}

#[test]
fn push_decimal_writes_digits() {
    let mut s = String::from("n=");
    push_decimal(&mut s, 0);
    push_decimal(&mut s, 1234567890);
    assert_eq!(s, "n=01234567890");
    let mut m = String::new();
    push_decimal(&mut m, u64::MAX);
    assert_eq!(m, u64::MAX.to_string());
}

#[test]
fn format_duration_with_given_seconds_text() {
    let under_a_second = ElapsedTime::new(0, 120_000_000);
    assert_eq!(format_duration_with_seconds(&under_a_second, "x"), "120 мс");
    let seconds = ElapsedTime::new(7, 250_000_000);
    assert_eq!(format_duration_with_seconds(&seconds, "7.3"), "7.3 сек");
    let minutes = ElapsedTime::new(125, 0);
    assert_eq!(format_duration_with_seconds(&minutes, "x"), "2 мин 05 сек");
}

#[test]
fn format_cost_in_points() {
    assert_eq!(format_cost(0), "0");
    assert_eq!(format_cost(1), "0.5");
    assert_eq!(format_cost(24), "12");
    assert_eq!(format_cost(25), "12.5");
    assert_eq!(format_cost(211), "105.5");
}
