//! Entity-tag handling and the before-fetch gate.

use podreplay::{
    composite_etag, extract_etag_value, not_modified_headers, parse_request_etag, plan_fetched,
    plan_replay, FetchedPlan, ReplayPlan,
};

fn parse_dt(dt_str: &str) -> i64 {
    chrono::NaiveDateTime::parse_from_str(dt_str, "%Y-%m-%dT%H:%M:%S")
        .unwrap()
        .and_utc()
        .timestamp()
}

#[test]
fn extracts_quoted_and_weak_forms() {
    assert_eq!(extract_etag_value("\"abc\""), Some("abc".to_string()));
    assert_eq!(extract_etag_value("W/\"abc\""), Some("abc".to_string()));
    assert_eq!(extract_etag_value("abc"), Some("abc".to_string()));
    assert_eq!(extract_etag_value("\"\""), None);
    assert_eq!(extract_etag_value("a\"b"), None);
}

#[test]
fn splits_composite_etags() {
    let (etag, expires) = parse_request_etag("\"2022-10-23T01:09:00Z|opaquestring\"");
    assert_eq!(etag, Some("opaquestring".to_string()));
    assert_eq!(expires, Some(parse_dt("2022-10-23T01:09:00")));

    let (etag2, expires2) = parse_request_etag("\"justanetag\"");
    assert_eq!(etag2, Some("justanetag".to_string()));
    assert_eq!(expires2, None);

    let (etag3, expires3) = parse_request_etag("\"not-a-date|tag\"");
    assert_eq!(etag3, Some("tag".to_string()));
    assert_eq!(expires3, None);
}

#[test]
fn composes_the_response_etag() {
    let ts = parse_dt("2021-10-23T01:09:00");
    assert_eq!(
        composite_etag(Some(ts), "W/\"feed_etag\""),
        Some("\"2021-10-23T01:09:00Z|feed_etag\"".to_string())
    );
    assert_eq!(
        composite_etag(None, "\"feed_etag\""),
        Some("\"feed_etag\"".to_string())
    );
    assert_eq!(composite_etag(Some(ts), "\"\""), None);
}

#[test]
fn round_trips_through_the_client() {
    let ts = parse_dt("2021-10-23T01:09:00");
    let etag = composite_etag(Some(ts), "\"upstream\"").unwrap();
    let (back_etag, back_expires) = parse_request_etag(&etag);
    assert_eq!(back_etag, Some("upstream".to_string()));
    assert_eq!(back_expires, Some(ts));
}

#[test]
fn rejects_a_now_more_than_a_year_ahead() {
    let clock = parse_dt("2021-10-23T01:09:00");
    let far = clock + 366 * 86400;
    assert!(matches!(
        plan_replay(Some(far), clock, None),
        ReplayPlan::RejectNow
    ));
    let near = clock + 300 * 86400;
    assert!(matches!(
        plan_replay(Some(near), clock, None),
        ReplayPlan::FetchUpstream
    ));
}

#[test]
fn unexpired_requests_short_circuit() {
    let clock = parse_dt("2021-10-23T01:09:00");
    let expires = clock + 3600;
    assert!(matches!(
        plan_replay(None, clock, Some(expires)),
        ReplayPlan::NotModified
    ));
    assert!(matches!(
        plan_replay(None, clock, Some(clock - 3600)),
        ReplayPlan::FetchUpstream
    ));
    assert!(matches!(
        plan_replay(None, clock, None),
        ReplayPlan::FetchUpstream
    ));
}

#[test]
fn upstream_not_modified_passes_through() {
    assert!(matches!(
        plan_fetched(true),
        FetchedPlan::PassThroughNotModified
    ));
    assert!(matches!(plan_fetched(false), FetchedPlan::Rebuild));
}

#[test]
fn not_modified_headers_refresh_the_composite_etag() {
    let ts = parse_dt("2021-10-23T01:09:00");
    let (expires, etag) = not_modified_headers(Some(ts), &Some("\"stored\"".to_string()));
    assert_eq!(expires, Some("Sat, 23 Oct 2021 01:09:00 +0000".to_string()));
    assert_eq!(etag, Some("\"2021-10-23T01:09:00Z|stored\"".to_string()));

    let (expires2, etag2) = not_modified_headers(None, &Some("\"stored\"".to_string()));
    assert_eq!(expires2, None);
    assert_eq!(etag2, Some("\"stored\"".to_string()));

    let (expires3, etag3) = not_modified_headers(Some(ts), &None);
    assert_eq!(expires3, Some("Sat, 23 Oct 2021 01:09:00 +0000".to_string()));
    assert_eq!(etag3, None);
}
