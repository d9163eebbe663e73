use fast_prime::fmt::{comma, fmt_duration};

#[test]
fn comma_groups_digits_by_three() {
    assert_eq!(comma(0), "0");
    assert_eq!(comma(7), "7");
    assert_eq!(comma(999), "999");
    assert_eq!(comma(1_000), "1,000");
    assert_eq!(comma(1_000_007), "1,000,007");
    assert_eq!(comma(225_698_304), "225,698,304");
    assert_eq!(comma(4_791_888_565), "4,791,888,565");
    assert_eq!(comma(u64::MAX), "18,446,744,073,709,551,615");
}

#[test]
fn comma_agrees_with_plain_digits() {
    for n in [1u64, 12, 123, 1234, 12345, 123456, 1234567, 50_847_534] {
        let plain: String = comma(n).chars().filter(|c| *c != ',').collect();
        assert_eq!(plain, n.to_string());
    }
}

#[test]
fn duration_layout() {
    assert_eq!(fmt_duration(0), "0 years 0 days 00:00:00");
    assert_eq!(fmt_duration(39_752), "0 years 0 days 11:02:32");
    assert_eq!(fmt_duration(59), "0 years 0 days 00:00:59");
    assert_eq!(fmt_duration(86_399), "0 years 0 days 23:59:59");
    assert_eq!(fmt_duration(86_400), "0 years 1 days 00:00:00");
    assert_eq!(fmt_duration(31_536_000 + 86_400 + 3_661), "1 years 1 days 01:01:01");
    assert_eq!(fmt_duration(400 * 31_536_000), "400 years 0 days 00:00:00");
}
