use throttler::rate::{parse_rate, Rate};

#[test]
fn test_parse_rate_per_millis() {
    assert!(parse_rate("12/ms") == Some(Rate::Millis(12)))
}

#[test]
fn test_parse_rate_per_second() {
    assert!(parse_rate("40/s") == Some(Rate::Second(40)))
}

#[test]
fn test_parse_rate_per_minute() {
    assert!(parse_rate("22/min") == Some(Rate::Minute(22)))
}

#[test]
fn test_parse_rate_per_hour() {
    assert!(parse_rate("47/h") == Some(Rate::Hour(47)))
}

#[test]
fn test_parse_rate_per_day() {
    assert!(parse_rate("725/day") == Some(Rate::Day(725)))
}

#[test]
fn test_parse_rate_no_unit() {
    assert!(parse_rate("25") == Some(Rate::Second(25)))
}

#[test]
fn parse_rejects_empty() {
    assert!(parse_rate("").is_none());
}

#[test]
fn parse_rejects_letters() {
    assert!(parse_rate("abc/s").is_none());
}

#[test]
fn parse_rejects_negative() {
    assert!(parse_rate("-1/s").is_none());
}

#[test]
fn parse_rejects_suffix_alone() {
    assert!(parse_rate("/s").is_none());
    assert!(parse_rate("/day").is_none());
    assert!(parse_rate("+/ms").is_none());
}

#[test]
fn parse_rejects_unknown_unit() {
    assert!(parse_rate("5/week").is_none());
    assert!(parse_rate("5/").is_none());
    assert!(parse_rate("5 /s").is_none());
}

#[test]
fn parse_accepts_zero_quota() {
    assert!(parse_rate("0/s") == Some(Rate::Second(0)));
}

#[test]
fn parse_accepts_plus_sign() {
    assert!(parse_rate("+7/h") == Some(Rate::Hour(7)));
}

#[test]
fn parse_largest_quota() {
    let max = u128::MAX;
    assert!(parse_rate(&format!("{}/min", max)) == Some(Rate::Minute(max)));
    assert!(parse_rate("340282366920938463463374607431768211456/min").is_none());
    assert!(parse_rate("999999999999999999999999999999999999999999").is_none());
}

#[test]
fn parse_round_trip_every_suffix() {
    for n in [0u128, 1, 9, 10, 123456789, u128::MAX] {
        assert!(parse_rate(&format!("{}/ms", n)) == Some(Rate::Millis(n)));
        assert!(parse_rate(&format!("{}/s", n)) == Some(Rate::Second(n)));
        assert!(parse_rate(&format!("{}/min", n)) == Some(Rate::Minute(n)));
        assert!(parse_rate(&format!("{}/h", n)) == Some(Rate::Hour(n)));
        assert!(parse_rate(&format!("{}/day", n)) == Some(Rate::Day(n)));
        assert!(parse_rate(&format!("{}", n)) == Some(Rate::Second(n)));
    }
}

#[test]
fn window_lengths() {
    assert_eq!(Rate::Millis(3).to_millis(), 1);
    assert_eq!(Rate::Second(3).to_millis(), 1000);
    assert_eq!(Rate::Minute(3).to_millis(), 60000);
    assert_eq!(Rate::Hour(3).to_millis(), 3600000);
    assert_eq!(Rate::Day(3).to_millis(), 86400000);
}

#[test]
fn quota_values() {
    assert_eq!(Rate::Millis(3).value(), 3);
    assert_eq!(Rate::Second(40).value(), 40);
    assert_eq!(Rate::Minute(22).value(), 22);
    assert_eq!(Rate::Hour(47).value(), 47);
    assert_eq!(Rate::Day(725).value(), 725);
}
