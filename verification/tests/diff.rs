//! The differ: one appended row per observed change.

use podreplay::{create_cached_entry_map, diff_feed, CachedEntry, SummaryItem};

fn parse_dt(dt_str: &str) -> i64 {
    chrono::NaiveDateTime::parse_from_str(dt_str, "%Y-%m-%dT%H:%M:%S")
        .unwrap()
        .and_utc()
        .timestamp()
}

fn cached_entries(feed_id: i64, items: Vec<(&str, &str, &str)>) -> Vec<CachedEntry> {
    items
        .into_iter()
        .map(|(id, published, noticed)| CachedEntry {
            feed_id,
            id: id.to_string(),
            published: if published == "gone" {
                None
            } else {
                Some(parse_dt(published))
            },
            noticed: parse_dt(if noticed == "pub" { published } else { noticed }),
        })
        .collect()
}

fn summary_map(items: Vec<(&str, &str)>) -> Vec<SummaryItem> {
    items
        .into_iter()
        .map(|(id, timestamp)| SummaryItem {
            id: id.to_string(),
            title: id.to_string(),
            timestamp: parse_dt(timestamp),
        })
        .collect()
}

#[test]
fn new_feed() {
    let item_map = summary_map(vec![]);
    let cached_map: Vec<CachedEntry> = Vec::new();
    let now = parse_dt("2013-10-10T21:00:00");
    let updates = diff_feed(&item_map, &cached_map, 1, now);
    assert_eq!(updates, vec![]);
}

#[test]
fn new_entry() {
    let item_map = summary_map(vec![("1", "2013-10-01T21:00:00")]);
    let cached_map: Vec<CachedEntry> = Vec::new();
    let now = parse_dt("2013-10-10T21:00:00");
    let updates = diff_feed(&item_map, &cached_map, 1, now);
    assert_eq!(
        updates,
        cached_entries(1, vec![("1", "2013-10-01T21:00:00", "2013-10-10T21:00:00")])
    );
}

#[test]
fn updated_entry() {
    let item_map = summary_map(vec![("1", "2013-10-02T21:00:00")]);
    let cached = cached_entries(1, vec![("1", "2013-10-01T21:00:00", "2013-10-01T22:00:00")]);
    let cached_map = create_cached_entry_map(&cached);
    let now = parse_dt("2013-10-10T21:00:00");
    let updates = diff_feed(&item_map, &cached_map, 1, now);
    assert_eq!(
        updates,
        cached_entries(1, vec![("1", "2013-10-02T21:00:00", "2013-10-10T21:00:00")])
    );
}

#[test]
fn removed_entry() {
    let item_map = summary_map(vec![]);
    let cached = cached_entries(1, vec![("1", "2013-09-01T21:00:00", "2013-09-01T22:00:00")]);
    let cached_map = create_cached_entry_map(&cached);
    let now = parse_dt("2013-10-10T21:00:00");
    let updates = diff_feed(&item_map, &cached_map, 1, now);
    assert_eq!(
        updates,
        cached_entries(1, vec![("1", "gone", "2013-10-10T21:00:00")])
    );
}

#[test]
fn no_change() {
    let item_map = summary_map(vec![("1", "2013-10-02T21:00:00")]);
    let cached = cached_entries(1, vec![("1", "2013-10-02T21:00:00", "2013-09-01T22:00:00")]);
    let cached_map = create_cached_entry_map(&cached);
    let now = parse_dt("2013-10-10T21:00:00");
    let updates = diff_feed(&item_map, &cached_map, 1, now);
    assert_eq!(updates, cached_entries(1, vec![]));
}

#[test]
fn second_diff_appends_nothing() {
    // Polling twice with an unchanged upstream: the second diff is empty.
    let item_map = summary_map(vec![
        ("1", "2013-10-02T21:00:00"),
        ("2", "2013-10-03T21:00:00"),
    ]);
    let cached = cached_entries(1, vec![("1", "2013-10-01T21:00:00", "2013-10-01T22:00:00")]);
    let cached_map = create_cached_entry_map(&cached);
    let now = parse_dt("2013-10-10T21:00:00");
    let updates = diff_feed(&item_map, &cached_map, 1, now);
    assert_eq!(updates.len(), 2);

    let mut all = cached;
    all.extend(updates);
    let cached_map2 = create_cached_entry_map(&all);
    let now2 = parse_dt("2013-10-11T21:00:00");
    let updates2 = diff_feed(&item_map, &cached_map2, 1, now2);
    assert_eq!(updates2, vec![]);
}

#[test]
fn latest_notice_wins_in_cached_map() {
    let cached = cached_entries(
        1,
        vec![
            ("1", "2013-10-01T21:00:00", "2013-10-01T22:00:00"),
            ("1", "2013-10-02T21:00:00", "2013-10-03T22:00:00"),
            ("2", "2013-10-05T21:00:00", "2013-10-05T22:00:00"),
        ],
    );
    let m = create_cached_entry_map(&cached);
    assert_eq!(m.len(), 2);
    let one = m.iter().find(|e| e.id == "1").unwrap();
    assert_eq!(one.published, Some(parse_dt("2013-10-02T21:00:00")));
}
