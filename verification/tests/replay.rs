//! The slot-assignment scenarios, driven through `replay_feed` and checked
//! in replay order.

use podreplay::{replay_feed, CachedEntry, ReplayedItem, Rule, WeekdaySet};

fn parse_dt(dt_str: &str) -> i64 {
    chrono::NaiveDateTime::parse_from_str(dt_str, "%Y-%m-%dT%H:%M:%S")
        .unwrap()
        .and_utc()
        .timestamp()
}

fn cached_entries(feed_id: i64, items: Vec<(&str, &str, &str)>) -> Vec<CachedEntry> {
    items
        .into_iter()
        .map(|(id, published, noticed)| CachedEntry {
            feed_id,
            id: id.to_string(),
            published: if published == "gone" {
                None
            } else {
                Some(parse_dt(published))
            },
            noticed: parse_dt(if noticed == "pub" { published } else { noticed }),
        })
        .collect()
}

fn daily(start: i64) -> Rule {
    Rule::Daily { start, interval: 1 }
}

fn weekly(start: i64) -> Rule {
    Rule::Weekly {
        start,
        interval: 1,
        days: WeekdaySet {
            su: false,
            mo: false,
            tu: false,
            we: false,
            th: false,
            fr: false,
            sa: false,
        },
    }
}

fn replayed_items(items: Vec<(&str, &str)>) -> Vec<ReplayedItem> {
    items
        .into_iter()
        .map(|(id, dt_str)| ReplayedItem {
            id: id.to_string(),
            timestamp: parse_dt(dt_str),
        })
        .collect()
}

#[test]
fn replay_empty_feed() {
    let items = cached_entries(1, vec![]);
    let start = parse_dt("2014-11-28T21:00:00");
    let cutoff = parse_dt("2014-12-28T21:00:00");
    let (list, next) = replay_feed(&items, &daily(start), start, cutoff, cutoff);
    assert_eq!(list, replayed_items(vec![]));
    assert_eq!(next, None);
}

#[test]
fn replay_one_item() {
    let items = cached_entries(1, vec![("1", "2013-10-10T21:00:00", "pub")]);
    let start = parse_dt("2014-11-28T21:00:00");
    let cutoff = parse_dt("2014-12-28T21:00:00");
    let (list, next) = replay_feed(&items, &daily(start), start, cutoff, cutoff);
    assert_eq!(list, replayed_items(vec![("1", "2014-11-28T21:00:00")]));
    assert_eq!(next, None);
}

#[test]
fn replay_two_items() {
    let items = cached_entries(
        1,
        vec![
            ("1", "2013-10-10T21:00:00", "pub"),
            ("2", "2013-11-10T21:00:00", "pub"),
        ],
    );
    let start = parse_dt("2014-11-28T21:00:00");
    let cutoff = parse_dt("2014-12-28T21:00:00");
    let (list, next) = replay_feed(&items, &daily(start), start, cutoff, cutoff);
    assert_eq!(
        list,
        replayed_items(vec![("1", "2014-11-28T21:00:00"), ("2", "2014-11-29T21:00:00")]),
    );
    assert_eq!(next, None);
}

#[test]
fn replay_stops_repeating_at_end() {
    let items = cached_entries(
        1,
        vec![
            ("1", "2013-11-28T21:00:00", "pub"),
            ("2", "2013-12-04T21:00:00", "pub"),
        ],
    );
    let start = parse_dt("2014-11-28T21:00:00");
    let cutoff = parse_dt("2014-11-28T22:00:00");
    let (list, next) = replay_feed(&items, &weekly(start), start, cutoff, cutoff);
    assert_eq!(list, replayed_items(vec![("1", "2014-11-28T21:00:00")]));
    assert_eq!(next, Some(parse_dt("2014-12-05T21:00:00")));
}

#[test]
fn replay_resumes_original_schedule_once_caught_up() {
    let items = cached_entries(
        1,
        vec![
            ("1", "2014-11-01T09:00:00", "pub"),
            ("2", "2014-11-04T21:00:00", "pub"),
            ("3", "2014-11-09T22:00:00", "pub"),
            ("4", "2014-11-13T22:00:00", "pub"),
        ],
    );
    let start = parse_dt("2014-11-03T20:00:00");
    let cutoff = parse_dt("2014-11-12T22:00:00");
    let (list, next) = replay_feed(&items, &daily(start), start, cutoff, cutoff);
    assert_eq!(
        list,
        replayed_items(vec![
            ("1", "2014-11-03T20:00:00"),
            ("2", "2014-11-04T21:00:00"),
            ("3", "2014-11-09T22:00:00"),
        ]),
    );
    assert_eq!(next, None);
}

#[test]
fn replay_does_not_duplicate_a_rescheduled_item_that_already_played() {
    let items = cached_entries(
        1,
        vec![
            ("1", "2014-11-01T09:00:00", "pub"),
            ("1", "2014-11-04T21:00:00", "pub"),
        ],
    );
    let start = parse_dt("2014-11-03T20:00:00");
    let cutoff = parse_dt("2014-11-12T22:00:00");
    let (list, next) = replay_feed(&items, &daily(start), start, cutoff, cutoff);
    assert_eq!(list, replayed_items(vec![("1", "2014-11-03T20:00:00")]));
    assert_eq!(next, None);
}

#[test]
fn replay_does_not_schedule_a_replay_if_a_reschedule_is_noticed_before_slot() {
    let items = cached_entries(
        1,
        vec![
            ("1", "2014-11-01T09:00:00", "pub"),
            ("2", "2014-11-02T21:00:00", "pub"),
            ("1", "2014-11-04T21:00:00", "pub"),
        ],
    );
    let start = parse_dt("2014-11-06T20:00:00");
    let cutoff = parse_dt("2014-12-12T22:00:00");
    let (list, next) = replay_feed(&items, &daily(start), start, cutoff, cutoff);
    assert_eq!(
        list,
        replayed_items(vec![("2", "2014-11-06T20:00:00"), ("1", "2014-11-07T20:00:00")]),
    );
    assert_eq!(next, None);
}

#[test]
fn replay_moved_forward_noticed_after_slot() {
    let items = cached_entries(
        1,
        vec![
            ("1", "2014-11-01T09:00:00", "pub"),
            ("2", "2014-11-02T21:00:00", "pub"),
            ("1", "2014-11-04T21:00:00", "pub"),
        ],
    );
    let start = parse_dt("2014-11-03T20:00:00");
    let cutoff = parse_dt("2014-12-12T22:00:00");
    let (list, next) = replay_feed(&items, &daily(start), start, cutoff, cutoff);
    assert_eq!(
        list,
        replayed_items(vec![("1", "2014-11-03T20:00:00"), ("2", "2014-11-04T20:00:00")]),
    );
    assert_eq!(next, None);
}

#[test]
fn replay_moved_forward_noticed_before_slot() {
    let items = cached_entries(
        1,
        vec![
            ("1", "2014-11-01T09:00:00", "pub"),
            ("2", "2014-11-02T21:00:00", "pub"),
            ("1", "2014-11-04T21:00:00", "pub"),
        ],
    );
    let start = parse_dt("2014-11-06T20:00:00");
    let cutoff = parse_dt("2014-12-12T22:00:00");
    let (list, next) = replay_feed(&items, &daily(start), start, cutoff, cutoff);
    assert_eq!(
        list,
        replayed_items(vec![("2", "2014-11-06T20:00:00"), ("1", "2014-11-07T20:00:00")]),
    );
    assert_eq!(next, None);
}

#[test]
fn replay_moved_backward_noticed_before_slot() {
    let items = cached_entries(
        1,
        vec![
            ("1", "2014-11-01T21:00:00", "2014-11-08T21:00:00"),
            ("2", "2014-11-02T09:00:00", "pub"),
            ("1", "2014-11-06T21:00:00", "pub"),
        ],
    );
    let start = parse_dt("2014-11-09T20:00:00");
    let cutoff = parse_dt("2014-12-12T22:00:00");
    let (list, next) = replay_feed(&items, &daily(start), start, cutoff, cutoff);
    assert_eq!(
        list,
        replayed_items(vec![("1", "2014-11-09T20:00:00"), ("2", "2014-11-10T20:00:00")]),
    );
    assert_eq!(next, None);
}

#[test]
fn replay_moved_backward_noticed_after_slot() {
    let items = cached_entries(
        1,
        vec![
            ("1", "2014-11-01T21:00:00", "2014-11-08T21:00:00"),
            ("2", "2014-11-02T09:00:00", "pub"),
            ("1", "2014-11-06T20:00:00", "pub"),
        ],
    );
    let start = parse_dt("2014-11-06T10:00:00");
    let cutoff = parse_dt("2014-12-12T22:00:00");
    let feed_noticed = parse_dt("2014-11-02T09:00:00");
    let (list, next) = replay_feed(&items, &daily(start), start, cutoff, feed_noticed);
    assert_eq!(
        list,
        replayed_items(vec![("2", "2014-11-06T10:00:00"), ("1", "2014-11-07T10:00:00")]),
    );
    assert_eq!(next, None);
}

#[test]
fn replay_published_retroactively_noticed_before_slot() {
    let items = cached_entries(
        1,
        vec![
            ("1", "2014-11-01T21:00:00", "2014-11-05T21:00:00"),
            ("2", "2014-11-02T09:00:00", "pub"),
        ],
    );
    let start = parse_dt("2014-11-06T10:00:00");
    let cutoff = parse_dt("2014-12-12T22:00:00");
    let (list, next) = replay_feed(&items, &daily(start), start, cutoff, cutoff);
    assert_eq!(
        list,
        replayed_items(vec![("1", "2014-11-06T10:00:00"), ("2", "2014-11-07T10:00:00")]),
    );
    assert_eq!(next, None);
}

#[test]
fn replay_published_retroactively_noticed_after_slot() {
    let items = cached_entries(
        1,
        vec![
            ("1", "2014-11-01T21:00:00", "2014-11-11T10:00:00"),
            ("2", "2014-11-02T09:00:00", "pub"),
        ],
    );
    let start = parse_dt("2014-11-10T20:00:00");
    let cutoff = parse_dt("2014-12-12T22:00:00");
    let feed_noticed = parse_dt("2014-11-02T09:00:00");
    let (list, next) = replay_feed(&items, &daily(start), start, cutoff, feed_noticed);
    assert_eq!(
        list,
        replayed_items(vec![("2", "2014-11-10T20:00:00"), ("1", "2014-11-11T20:00:00")]),
    );
    assert_eq!(next, None);
}

#[test]
fn replay_published_retroactively_noticed_after_slot_and_missed_a_slot() {
    let items = cached_entries(
        1,
        vec![
            ("1", "2014-11-01T21:00:00", "2014-11-11T21:00:00"),
            ("2", "2014-11-02T09:00:00", "pub"),
        ],
    );
    let start = parse_dt("2014-11-10T10:00:00");
    let cutoff = parse_dt("2014-12-12T22:00:00");
    let feed_noticed = parse_dt("2014-11-02T09:00:00");
    let (list, next) = replay_feed(&items, &daily(start), start, cutoff, feed_noticed);
    assert_eq!(
        list,
        replayed_items(vec![("2", "2014-11-10T10:00:00"), ("1", "2014-11-12T10:00:00")]),
    );
    assert_eq!(next, None);
}

#[test]
fn replay_unpublish_noticed_after_slot() {
    let items = cached_entries(
        1,
        vec![
            ("1", "2014-11-01T21:00:00", "pub"),
            ("2", "2014-11-03T21:00:00", "pub"),
            ("1", "gone", "2014-11-11T21:00:00"),
        ],
    );
    let start = parse_dt("2014-11-10T10:00:00");
    let cutoff = parse_dt("2014-12-12T22:00:00");
    let (list, next) = replay_feed(&items, &daily(start), start, cutoff, cutoff);
    assert_eq!(list, replayed_items(vec![("2", "2014-11-11T10:00:00")]));
    assert_eq!(next, None);
}

#[test]
fn replay_unpublish_noticed_before_slot() {
    let items = cached_entries(
        1,
        vec![
            ("1", "2014-11-01T21:00:00", "pub"),
            ("2", "2014-11-03T21:00:00", "pub"),
            ("1", "gone", "2014-11-10T21:00:00"),
        ],
    );
    let start = parse_dt("2014-11-12T10:00:00");
    let cutoff = parse_dt("2014-12-12T22:00:00");
    let (list, next) = replay_feed(&items, &daily(start), start, cutoff, cutoff);
    assert_eq!(list, replayed_items(vec![("2", "2014-11-12T10:00:00")]));
    assert_eq!(next, None);
}

#[test]
fn replay_items_in_a_retroactively_subscribed_feed_appear_properly() {
    let items = cached_entries(
        1,
        vec![
            ("1", "2014-11-01T21:00:00", "2014-12-20T10:00:00"),
            ("2", "2014-11-03T21:00:00", "2014-12-20T10:00:00"),
            ("3", "2014-11-06T21:00:00", "2014-12-20T10:00:00"),
        ],
    );
    let start = parse_dt("2014-11-04T10:00:00");
    let cutoff = parse_dt("2014-12-12T22:00:00");
    let feed_noticed = parse_dt("2014-12-20T10:00:00");
    let (list, next) = replay_feed(&items, &daily(start), start, cutoff, feed_noticed);
    assert_eq!(
        list,
        replayed_items(vec![
            ("1", "2014-11-04T10:00:00"),
            ("2", "2014-11-05T10:00:00"),
            ("3", "2014-11-06T21:00:00"),
        ]),
    );
    assert_eq!(next, None);
}
