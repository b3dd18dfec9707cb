//! The recurrence-rule grammar and slot sequences.

use podreplay::{days_until_weekday, parse_rule, take_slots, Rule};

fn parse_dt(dt_str: &str) -> i64 {
    chrono::NaiveDateTime::parse_from_str(dt_str, "%Y-%m-%dT%H:%M:%S")
        .unwrap()
        .and_utc()
        .timestamp()
}

fn slots(rule_str: &str, start: &str, n: usize) -> Vec<i64> {
    let rule = parse_rule(parse_dt(start), rule_str);
    take_slots(&rule, n)
}

#[test]
fn test_days_until_weekday() {
    // 2013-10-10 is a Thursday.
    let date = parse_dt("2013-10-10T21:00:00");
    assert_eq!(days_until_weekday(date, 4), 0);
    assert_eq!(days_until_weekday(date, 5), 1);
    assert_eq!(days_until_weekday(date, 6), 2);
    assert_eq!(days_until_weekday(date, 0), 3);
    assert_eq!(days_until_weekday(date, 1), 4);
    assert_eq!(days_until_weekday(date, 2), 5);
    assert_eq!(days_until_weekday(date, 3), 6);
}

#[test]
fn test_parse_daily() {
    assert_eq!(
        slots("1d", "2013-10-10T21:00:00", 3),
        vec![
            parse_dt("2013-10-10T21:00:00"),
            parse_dt("2013-10-11T21:00:00"),
            parse_dt("2013-10-12T21:00:00"),
        ]
    );
}

#[test]
fn test_parse_every_3_days() {
    assert_eq!(
        slots("3d", "2013-10-10T21:00:00", 3),
        vec![
            parse_dt("2013-10-10T21:00:00"),
            parse_dt("2013-10-13T21:00:00"),
            parse_dt("2013-10-16T21:00:00"),
        ]
    );
}

#[test]
fn test_parse_monthly() {
    assert_eq!(
        slots("1m", "2013-10-10T21:00:00", 3),
        vec![
            parse_dt("2013-10-10T21:00:00"),
            parse_dt("2013-11-10T21:00:00"),
            parse_dt("2013-12-10T21:00:00"),
        ]
    );
}

#[test]
fn test_parse_every_2_months() {
    assert_eq!(
        slots("2m", "2013-10-10T21:00:00", 3),
        vec![
            parse_dt("2013-10-10T21:00:00"),
            parse_dt("2013-12-10T21:00:00"),
            parse_dt("2014-02-10T21:00:00"),
        ]
    );
}

#[test]
fn test_parse_weekly() {
    assert_eq!(
        slots("1w", "2013-10-10T21:00:00", 3),
        vec![
            parse_dt("2013-10-10T21:00:00"),
            parse_dt("2013-10-17T21:00:00"),
            parse_dt("2013-10-24T21:00:00"),
        ]
    );
}

#[test]
fn test_parse_every_3_weeks() {
    assert_eq!(
        slots("3w", "2013-10-10T21:00:00", 3),
        vec![
            parse_dt("2013-10-10T21:00:00"),
            parse_dt("2013-10-31T21:00:00"),
            parse_dt("2013-11-21T21:00:00"),
        ]
    );
}

#[test]
fn test_parse_weekly_every_other_friday() {
    assert_eq!(
        slots("2wF", "2013-10-10T21:00:00", 3),
        vec![
            parse_dt("2013-10-11T21:00:00"),
            parse_dt("2013-10-25T21:00:00"),
            parse_dt("2013-11-08T21:00:00"),
        ]
    );
}

#[test]
fn test_parse_weekly_every_tue_and_sat() {
    assert_eq!(
        slots("1wTuSa", "2013-10-10T21:00:00", 3),
        vec![
            parse_dt("2013-10-12T21:00:00"),
            parse_dt("2013-10-15T21:00:00"),
            parse_dt("2013-10-19T21:00:00"),
        ]
    );
}

#[test]
fn malformed_rules_fall_back_to_weekly() {
    let start = parse_dt("2013-10-10T21:00:00");
    for bad in ["", "d", "0d", "1x", "1dX", "1wSaTu", "99999999999999999999d"] {
        let rule = parse_rule(start, bad);
        assert_eq!(
            rule,
            Rule::Weekly {
                start,
                interval: 1,
                days: podreplay::WeekdaySet {
                    su: false,
                    mo: false,
                    tu: false,
                    we: false,
                    th: false,
                    fr: false,
                    sa: false,
                },
            }
        );
    }
}

#[test]
fn monthly_slots_clamp_short_months() {
    // Monthly from the 31st: the day of month is clamped, the sequence
    // still moves strictly forward.
    let s = slots("1m", "2014-01-31T10:00:00", 3);
    assert_eq!(s[0], parse_dt("2014-01-31T10:00:00"));
    assert_eq!(s[1], parse_dt("2014-02-28T10:00:00"));
    assert_eq!(s[2], parse_dt("2014-03-31T10:00:00"));
}
