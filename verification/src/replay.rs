//! The replay entry point used by the feed pipeline: a rescheduled feed is
//! the cached history mapped onto the rule's slots, with the server's
//! current time as the cutoff.

use vstd::prelude::*;

use crate::reschedule::{reschedule_feed, reschedule_run, ReplayedItem};
use crate::rule::{rule_wf, Rule};
use crate::CachedEntry;

verus! {

/// Replays a feed's history onto the rule's slots, bounded by `now`.
///
/// Returns the assignments in the order they were recorded and the first
/// unfilled slot (absent when the items ran out before `now`).
pub fn replay_feed(
    items: &Vec<CachedEntry>,
    rule: &Rule,
    start: i64,
    now: i64,
    feed_noticed: i64,
) -> (r: (Vec<ReplayedItem>, Option<i64>))
    requires
        rule_wf(*rule),
    ensures
        ({
            let out = reschedule_run(
                items@,
                *rule,
                start,
                Option::Some(now),
                Option::Some(feed_noticed),
                Option::None,
                Option::None,
            );
            &&& r.0@.len() == out.ins.len()
            &&& (forall|j: int|
                0 <= j < out.ins.len() ==> (#[trigger] r.0@[j]).id@ == out.ins[j].id
                    && r.0@[j].timestamp == out.ins[j].at)
            &&& (match (r.1, out.next) {
                (Option::Some(a), Option::Some(b)) => a as int == b,
                (Option::None, Option::None) => true,
                _ => false,
            })
        }),
{
    let (map, next) = reschedule_feed(
        items,
        rule,
        start,
        Some(now),
        Some(feed_noticed),
        None,
        None,
    );
    (map.entries, next)
}

} // verus!
