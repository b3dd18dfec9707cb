//! Replays a podcast feed on a user-chosen recurring schedule.
//!
//! The library keeps an append-only history of when each episode's published
//! timestamp was observed, parses a compact recurrence-rule language, maps the
//! history onto the schedule's slots, and rewrites the upstream XML with the
//! computed timestamps while leaving every other byte untouched.
//!
//! Instants are UTC timestamps in whole seconds since the Unix epoch.

pub mod diff;
pub mod endpoint;
pub mod replay;
pub mod reschedule;
pub mod rewrite;
pub mod rule;
pub mod summarize;
pub mod time;
pub mod xml;

pub use diff::{create_cached_entry_map, diff_feed};
pub use endpoint::{
    composite_etag, extract_etag_value, not_modified_headers, parse_request_etag, plan_fetched,
    plan_replay, FetchedPlan, ReplayPlan, SummaryQuery,
};
pub use replay::replay_feed;
pub use reschedule::{reschedule_feed, ReplayedItem, Reschedule};
pub use rewrite::{rewrite_feed, RewriteError};
pub use rule::{parse_rule, take_slots, Rule, RuleIter, WeekdaySet};
pub use summarize::{
    is_audio_enclosure, read_contents, summarize_feed, FeedSummary, SummarizeError, SummaryItem,
};
pub use time::{days_until_weekday, format_rfc2822, format_rfc3339, parse_rfc3339, parse_timestamp};

use vstd::prelude::*;

verus! {

/// Metadata the persistent store keeps for one upstream feed.
///
/// `first_fetched` is set when the feed is first seen and never changes;
/// `last_fetched` and `etag` follow the most recent fetch.
#[derive(Debug)]
pub struct FeedMeta {
    pub id: i64,
    pub uri: String,
    pub first_fetched: i64,
    pub last_fetched: i64,
    pub etag: Option<String>,
}

/// One append-only notice record: at `noticed` the upstream feed reported the
/// item `id` as published at `published` (`None` means the item had
/// disappeared from upstream).  Rows are appended when a change is observed
/// and never mutated.
#[derive(Debug)]
pub struct CachedEntry {
    pub id: String,
    pub feed_id: i64,
    pub noticed: i64,
    pub published: Option<i64>,
}

impl CachedEntry {
    /// Field-for-field copy (`Clone` via `derive` would tell the verifier
    /// nothing about the result).
    pub fn duplicate(&self) -> (r: CachedEntry)
        ensures
            r.id@ == self.id@,
            r.feed_id == self.feed_id,
            r.noticed == self.noticed,
            r.published == self.published,
    {
        CachedEntry {
            id: self.id.clone(),
            feed_id: self.feed_id,
            noticed: self.noticed,
            published: self.published,
        }
    }
}

impl PartialEq for CachedEntry {
    fn eq(&self, other: &CachedEntry) -> (r: bool) {
        self.id == other.id && self.feed_id == other.feed_id && self.noticed == other.noticed
            && self.published == other.published
    }
}

impl vstd::std_specs::cmp::PartialEqSpecImpl for CachedEntry {
    open spec fn obeys_eq_spec() -> bool {
        true
    }

    open spec fn eq_spec(&self, other: &CachedEntry) -> bool {
        self.id@ == other.id@ && self.feed_id == other.feed_id && self.noticed == other.noticed
            && self.published == other.published
    }
}

} // verus!
