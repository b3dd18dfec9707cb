//! The differ: compares one upstream summary against the most recently
//! noticed cache row per item and produces the rows to append.
//!
//! A row is appended when an item's published instant changed (including
//! appearing or disappearing), never when nothing changed — which is what
//! makes polling idempotent (see [`lemma_diff_idempotent`]).

use vstd::prelude::*;

use crate::summarize::SummaryItem;
use crate::CachedEntry;

verus! {

/// A cache row reduced to what the differ reasons about.
pub ghost struct RowV {
    pub id: Seq<char>,
    pub feed_id: i64,
    pub noticed: i64,
    pub published: Option<i64>,
}

/// An upstream item reduced to what the differ reasons about.
pub ghost struct ItemV {
    pub id: Seq<char>,
    pub timestamp: i64,
}

pub open spec fn rows_of(entries: Seq<CachedEntry>) -> Seq<RowV> {
    entries.map_values(
        |e: CachedEntry|
            RowV { id: e.id@, feed_id: e.feed_id, noticed: e.noticed, published: e.published },
    )
}

pub open spec fn items_of(items: Seq<SummaryItem>) -> Seq<ItemV> {
    items.map_values(|it: SummaryItem| ItemV { id: it.id@, timestamp: it.timestamp })
}

/// First row with this id.
pub open spec fn row_find(rows: Seq<RowV>, id: Seq<char>) -> Option<RowV>
    decreases rows.len(),
{
    if rows.len() == 0 {
        Option::None
    } else if rows[0].id == id {
        Option::Some(rows[0])
    } else {
        row_find(rows.skip(1), id)
    }
}

/// First item with this id.
pub open spec fn item_find(items: Seq<ItemV>, id: Seq<char>) -> Option<ItemV>
    decreases items.len(),
{
    if items.len() == 0 {
        Option::None
    } else if items[0].id == id {
        Option::Some(items[0])
    } else {
        item_find(items.skip(1), id)
    }
}

/// The summary's published instant for an id: the item's timestamp, or
/// absent when the summary no longer carries the id.
pub open spec fn item_ts(items: Seq<ItemV>, id: Seq<char>) -> Option<i64> {
    match item_find(items, id) {
        Option::Some(it) => Option::Some(it.timestamp),
        Option::None => Option::None,
    }
}

/// The rows appended for cached ids whose published instant changed,
/// scanning the cached map from position `j`.
pub open spec fn diff_updates_from(
    im: Seq<ItemV>,
    cm: Seq<RowV>,
    feed_id: i64,
    now: i64,
    j: int,
) -> Seq<RowV>
    decreases cm.len() - j,
{
    if j < 0 || j >= cm.len() {
        Seq::empty()
    } else {
        let p = item_ts(im, cm[j].id);
        let rest = diff_updates_from(im, cm, feed_id, now, j + 1);
        if p != cm[j].published {
            seq![RowV { id: cm[j].id, feed_id, noticed: now, published: p }] + rest
        } else {
            rest
        }
    }
}

/// The rows appended for summary ids the cache has never seen, scanning
/// the item map from position `j`.
pub open spec fn diff_news_from(
    im: Seq<ItemV>,
    cm: Seq<RowV>,
    feed_id: i64,
    now: i64,
    j: int,
) -> Seq<RowV>
    decreases im.len() - j,
{
    if j < 0 || j >= im.len() {
        Seq::empty()
    } else {
        let rest = diff_news_from(im, cm, feed_id, now, j + 1);
        if row_find(cm, im[j].id) is None {
            seq![
                RowV {
                    id: im[j].id,
                    feed_id,
                    noticed: now,
                    published: Option::Some(im[j].timestamp),
                },
            ] + rest
        } else {
            rest
        }
    }
}

/// Everything one poll appends: changed rows first (in cached-map order),
/// then newly seen ids (in summary order).
pub open spec fn diff_spec(im: Seq<ItemV>, cm: Seq<RowV>, feed_id: i64, now: i64) -> Seq<RowV> {
    diff_updates_from(im, cm, feed_id, now, 0) + diff_news_from(im, cm, feed_id, now, 0)
}

/// Exec lookup of the summary map.
fn lookup_item_ts(item_map: &Vec<SummaryItem>, id: &String) -> (r: Option<i64>)
    ensures
        r == item_ts(items_of(item_map@), id@),
    decreases item_map@.len(),
{
    let n = item_map.len();
    proof {
        assert(items_of(item_map@).skip(0) =~= items_of(item_map@));
    }
    let mut i: usize = 0;
    while i < n
        invariant
            0 <= i <= n,
            n == item_map@.len(),
            item_ts(items_of(item_map@), id@) == item_ts(items_of(item_map@).skip(i as int), id@),
        decreases n - i,
    {
        proof {
            assert(items_of(item_map@).skip(i as int)[0] == items_of(item_map@)[i as int]);
            assert(items_of(item_map@).skip(i as int).skip(1) =~= items_of(item_map@).skip(
                i as int + 1,
            ));
        }
        if item_map[i].id == *id {
            return Some(item_map[i].timestamp);
        }
        i = i + 1;
    }
    proof {
        assert(items_of(item_map@).skip(n as int).len() == 0);
    }
    None
}

/// Exec lookup of the cached map.
fn lookup_row(cached_map: &Vec<CachedEntry>, id: &String) -> (r: Option<usize>)
    ensures
        match r {
            Option::Some(k) => k < cached_map@.len() && row_find(rows_of(cached_map@), id@)
                == Option::Some(rows_of(cached_map@)[k as int]) && cached_map@[k as int].id@
                == id@,
            Option::None => row_find(rows_of(cached_map@), id@) is None,
        },
{
    let n = cached_map.len();
    proof {
        assert(rows_of(cached_map@).skip(0) =~= rows_of(cached_map@));
    }
    let mut i: usize = 0;
    while i < n
        invariant
            0 <= i <= n,
            n == cached_map@.len(),
            row_find(rows_of(cached_map@), id@) == row_find(
                rows_of(cached_map@).skip(i as int),
                id@,
            ),
        decreases n - i,
    {
        proof {
            assert(rows_of(cached_map@).skip(i as int)[0] == rows_of(cached_map@)[i as int]);
            assert(rows_of(cached_map@).skip(i as int).skip(1) =~= rows_of(cached_map@).skip(
                i as int + 1,
            ));
        }
        if cached_map[i].id == *id {
            return Some(i);
        }
        i = i + 1;
    }
    proof {
        assert(rows_of(cached_map@).skip(n as int).len() == 0);
    }
    None
}

/// Compares the summary against the most recently noticed row per id and
/// returns the rows to append: one per cached id whose published instant
/// changed (with the new instant, or absent when the item disappeared),
/// then one per summary id the cache has never seen.  `noticed` is `now`
/// on every appended row; no row is appended for an unchanged id.
pub fn diff_feed(
    item_map: &Vec<SummaryItem>,
    cached_map: &Vec<CachedEntry>,
    feed_id: i64,
    now: i64,
) -> (r: Vec<CachedEntry>)
    ensures
        rows_of(r@) == diff_spec(items_of(item_map@), rows_of(cached_map@), feed_id, now),
{
    let ghost im = items_of(item_map@);
    let ghost cm = rows_of(cached_map@);
    let mut r: Vec<CachedEntry> = Vec::new();
    let n = cached_map.len();
    let mut i: usize = 0;
    while i < n
        invariant
            0 <= i <= n,
            n == cached_map@.len(),
            im == items_of(item_map@),
            cm == rows_of(cached_map@),
            diff_updates_from(im, cm, feed_id, now, 0) == rows_of(r@) + diff_updates_from(
                im,
                cm,
                feed_id,
                now,
                i as int,
            ),
        decreases n - i,
    {
        let e = &cached_map[i];
        let p = lookup_item_ts(item_map, &e.id);
        let changed = match (p, e.published) {
            (Option::Some(a), Option::Some(b)) => a != b,
            (Option::None, Option::None) => false,
            _ => true,
        };
        let ghost r_rows = rows_of(r@);
        if changed {
            r.push(CachedEntry { id: e.id.clone(), feed_id, noticed: now, published: p });
            proof {
                assert(rows_of(r@) =~= r_rows + seq![
                    RowV { id: cm[i as int].id, feed_id, noticed: now, published: p },
                ]);
            }
        }
        proof {
            assert(diff_updates_from(im, cm, feed_id, now, 0) =~= rows_of(r@)
                + diff_updates_from(im, cm, feed_id, now, i as int + 1));
        }
        i = i + 1;
    }
    let ghost part1 = rows_of(r@);
    proof {
        assert(diff_updates_from(im, cm, feed_id, now, n as int).len() == 0);
        assert(part1 =~= diff_updates_from(im, cm, feed_id, now, 0));
    }
    let m = item_map.len();
    let mut j: usize = 0;
    while j < m
        invariant
            0 <= j <= m,
            m == item_map@.len(),
            im == items_of(item_map@),
            cm == rows_of(cached_map@),
            part1 == diff_updates_from(im, cm, feed_id, now, 0),
            part1 + diff_news_from(im, cm, feed_id, now, 0) == rows_of(r@) + diff_news_from(
                im,
                cm,
                feed_id,
                now,
                j as int,
            ),
        decreases m - j,
    {
        let it = &item_map[j];
        let seen = lookup_row(cached_map, &it.id);
        let ghost r_rows = rows_of(r@);
        if seen.is_none() {
            r.push(
                CachedEntry {
                    id: it.id.clone(),
                    feed_id,
                    noticed: now,
                    published: Some(it.timestamp),
                },
            );
            proof {
                assert(rows_of(r@) =~= r_rows + seq![
                    RowV {
                        id: im[j as int].id,
                        feed_id,
                        noticed: now,
                        published: Option::Some(im[j as int].timestamp),
                    },
                ]);
            }
        }
        proof {
            assert(part1 + diff_news_from(im, cm, feed_id, now, 0) =~= rows_of(r@)
                + diff_news_from(im, cm, feed_id, now, j as int + 1));
        }
        j = j + 1;
    }
    proof {
        assert(diff_news_from(im, cm, feed_id, now, m as int).len() == 0);
        assert(rows_of(r@) =~= diff_spec(im, cm, feed_id, now));
    }
    r
}

/// The latest-noticed row with this id among the first `i` rows; ties on
/// `noticed` keep the earlier row, matching the reduction the store makes.
pub open spec fn newest_row_upto(rows: Seq<RowV>, id: Seq<char>, i: int) -> Option<RowV>
    decreases i,
{
    if i <= 0 || i > rows.len() {
        Option::None
    } else {
        let prev = newest_row_upto(rows, id, i - 1);
        if rows[i - 1].id == id {
            match prev {
                Option::None => Option::Some(rows[i - 1]),
                Option::Some(p) => if rows[i - 1].noticed > p.noticed {
                    Option::Some(rows[i - 1])
                } else {
                    prev
                },
            }
        } else {
            prev
        }
    }
}

proof fn lemma_row_find_none(rows: Seq<RowV>, id: Seq<char>)
    requires
        row_find(rows, id) is None,
    ensures
        forall|j: int| 0 <= j < rows.len() ==> (#[trigger] rows[j]).id != id,
    decreases rows.len(),
{
    if rows.len() > 0 {
        lemma_row_find_none(rows.skip(1), id);
        assert(forall|j: int| 1 <= j < rows.len() ==> rows.skip(1)[j - 1] == #[trigger] rows[j]);
    }
}

proof fn lemma_newest_membership(rows: Seq<RowV>, id: Seq<char>, i: int)
    requires
        newest_row_upto(rows, id, i) is Some,
    ensures
        exists|j: int| 0 <= j < i && j < rows.len() && (#[trigger] rows[j]).id == id,
    decreases i,
{
    if i > 1 && !(rows[i - 1].id == id && i <= rows.len()) {
        if newest_row_upto(rows, id, i - 1) is Some {
            lemma_newest_membership(rows, id, i - 1);
        }
    }
}

/// Reduces the full history to the most recently noticed row per id (the
/// differ's cached-map input), one entry per distinct id.
pub fn create_cached_entry_map(entries: &Vec<CachedEntry>) -> (r: Vec<CachedEntry>)
    ensures
        forall|a: int, b: int|
            0 <= a < b < r@.len() ==> (#[trigger] r@[a]).id@ != (#[trigger] r@[b]).id@,
        forall|k: int|
            0 <= k < r@.len() ==> newest_row_upto(
                rows_of(entries@),
                (#[trigger] r@[k]).id@,
                entries@.len() as int,
            ) == Option::Some(rows_of(r@)[k]),
        forall|j: int|
            0 <= j < entries@.len() ==> exists|k: int|
                0 <= k < r@.len() && r@[k].id@ == (#[trigger] entries@[j]).id@,
{
    let ghost rows = rows_of(entries@);
    let mut r: Vec<CachedEntry> = Vec::new();
    let n = entries.len();
    let mut i: usize = 0;
    while i < n
        invariant
            0 <= i <= n,
            n == entries@.len(),
            rows == rows_of(entries@),
            forall|a: int, b: int|
                0 <= a < b < r@.len() ==> (#[trigger] r@[a]).id@ != (#[trigger] r@[b]).id@,
            forall|k: int|
                0 <= k < r@.len() ==> newest_row_upto(rows, (#[trigger] r@[k]).id@, i as int)
                    == Option::Some(rows_of(r@)[k]),
            forall|j: int|
                0 <= j < i ==> exists|k: int|
                    0 <= k < r@.len() && r@[k].id@ == (#[trigger] entries@[j]).id@,
        decreases n - i,
    {
        let e = &entries[i];
        let pos = lookup_row(&r, &e.id);
        proof {
            assert(rows[i as int] == (RowV {
                id: entries@[i as int].id@,
                feed_id: entries@[i as int].feed_id,
                noticed: entries@[i as int].noticed,
                published: entries@[i as int].published,
            }));
        }
        let ghost r_old = r@;
        let ghost eid = entries@[i as int].id@;
        let wit: usize;
        match pos {
            Option::Some(k) => {
                proof {
                    assert(newest_row_upto(rows, eid, i as int) == Option::Some(
                        rows_of(r_old)[k as int],
                    ));
                    assert(rows_of(r_old)[k as int].noticed == r_old[k as int].noticed);
                }
                if e.noticed > r[k].noticed {
                    r.set(k, e.duplicate());
                    proof {
                        assert(rows_of(r@)[k as int] =~= rows[i as int]);
                        assert(newest_row_upto(rows, eid, i as int + 1) == Option::Some(
                            rows[i as int],
                        ));
                    }
                } else {
                    proof {
                        assert(newest_row_upto(rows, eid, i as int + 1) == Option::Some(
                            rows_of(r@)[k as int],
                        ));
                    }
                }
                wit = k;
            },
            Option::None => {
                proof {
                    lemma_row_find_none(rows_of(r_old), eid);
                    if newest_row_upto(rows, eid, i as int) is Some {
                        lemma_newest_membership(rows, eid, i as int);
                        let j0 = choose|j0: int|
                            0 <= j0 < i as int && j0 < rows.len() && (#[trigger] rows[j0]).id
                                == eid;
                        assert(entries@[j0].id@ == eid);
                        let k0 = choose|k0: int|
                            0 <= k0 < r_old.len() && r_old[k0].id@ == entries@[j0].id@;
                        assert(rows_of(r_old)[k0].id == eid);
                        assert(false);
                    }
                }
                wit = r.len();
                r.push(e.duplicate());
                proof {
                    assert(rows_of(r@)[wit as int] =~= rows[i as int]);
                    assert(newest_row_upto(rows, eid, i as int + 1) == Option::Some(
                        rows[i as int],
                    ));
                    assert(forall|q: int|
                        0 <= q < r_old.len() ==> (#[trigger] r_old[q]).id@ != eid);
                }
            },
        }
        proof {
            assert(wit < r@.len() && r@[wit as int].id@ == eid);
            assert(forall|k2: int|
                0 <= k2 < r_old.len() ==> (#[trigger] r@[k2]).id@ == r_old[k2].id@);
            assert(forall|k2: int|
                0 <= k2 < r@.len() && (#[trigger] r@[k2]).id@ != eid ==> k2 < r_old.len()
                    && r@[k2] == r_old[k2] && rows_of(r@)[k2] == rows_of(r_old)[k2]);
            assert(forall|k2: int|
                0 <= k2 < r@.len() && (#[trigger] r@[k2]).id@ != eid ==> newest_row_upto(
                    rows,
                    r@[k2].id@,
                    i as int + 1,
                ) == newest_row_upto(rows, r@[k2].id@, i as int));
            assert(newest_row_upto(rows, r@[wit as int].id@, i as int + 1) == Option::Some(
                rows_of(r@)[wit as int],
            ));
            assert forall|j: int| 0 <= j < i + 1 implies exists|k2: int|
                0 <= k2 < r@.len() && r@[k2].id@ == (#[trigger] entries@[j]).id@ by {
                if j < i {
                    let k0 = choose|k0: int|
                        0 <= k0 < r_old.len() && r_old[k0].id@ == entries@[j].id@;
                    assert(r@[k0].id@ == entries@[j].id@);
                } else {
                    assert(r@[wit as int].id@ == entries@[j].id@);
                }
            }
        }
        i = i + 1;
    }
    r
}

// ------------------------------------------------------------------
// Diffing twice appends nothing.
// ------------------------------------------------------------------

proof fn lemma_row_find_some(rows: Seq<RowV>, id: Seq<char>)
    requires
        row_find(rows, id) is Some,
    ensures
        row_find(rows, id).unwrap().id == id,
        exists|j: int| 0 <= j < rows.len() && #[trigger] rows[j] == row_find(rows, id).unwrap(),
    decreases rows.len(),
{
    if rows.len() > 0 && rows[0].id != id {
        lemma_row_find_some(rows.skip(1), id);
        let j = choose|j: int|
            0 <= j < rows.skip(1).len() && #[trigger] rows.skip(1)[j] == row_find(
                rows.skip(1),
                id,
            ).unwrap();
        assert(rows[j + 1] == row_find(rows, id).unwrap());
    }
}

/// Every appended changed-row carries the summary's instant for its id.
proof fn lemma_updates_pub(im: Seq<ItemV>, cm: Seq<RowV>, feed_id: i64, now: i64, j: int)
    ensures
        forall|x: int|
            0 <= x < diff_updates_from(im, cm, feed_id, now, j).len()
                ==> (#[trigger] diff_updates_from(im, cm, feed_id, now, j)[x]).published
                == item_ts(im, diff_updates_from(im, cm, feed_id, now, j)[x].id),
    decreases cm.len() - j,
{
    if 0 <= j < cm.len() {
        lemma_updates_pub(im, cm, feed_id, now, j + 1);
        let rest = diff_updates_from(im, cm, feed_id, now, j + 1);
        let cur = diff_updates_from(im, cm, feed_id, now, j);
        if item_ts(im, cm[j].id) != cm[j].published {
            assert(forall|x: int| 1 <= x < cur.len() ==> #[trigger] cur[x] == rest[x - 1]);
        }
    }
}

/// A changed-row for an id is appended exactly when some cached row with
/// that id disagrees with the summary.
proof fn lemma_updates_mem(
    im: Seq<ItemV>,
    cm: Seq<RowV>,
    feed_id: i64,
    now: i64,
    j: int,
    id: Seq<char>,
)
    requires
        j >= 0,
    ensures
        (exists|x: int|
            0 <= x < diff_updates_from(im, cm, feed_id, now, j).len()
                && (#[trigger] diff_updates_from(im, cm, feed_id, now, j)[x]).id == id) <==> (
        exists|q: int|
            j <= q < cm.len() && (#[trigger] cm[q]).id == id && item_ts(im, cm[q].id)
                != cm[q].published),
    decreases cm.len() - j,
{
    if 0 <= j < cm.len() {
        lemma_updates_mem(im, cm, feed_id, now, j + 1, id);
        let rest = diff_updates_from(im, cm, feed_id, now, j + 1);
        let cur = diff_updates_from(im, cm, feed_id, now, j);
        if item_ts(im, cm[j].id) != cm[j].published {
            assert(cur[0].id == cm[j].id);
            assert(forall|x: int| 1 <= x < cur.len() ==> #[trigger] cur[x] == rest[x - 1]);
            if exists|x: int| 0 <= x < cur.len() && (#[trigger] cur[x]).id == id {
                let x = choose|x: int| 0 <= x < cur.len() && (#[trigger] cur[x]).id == id;
                if x == 0 {
                    assert(cm[j].id == id && item_ts(im, cm[j].id) != cm[j].published);
                } else {
                    assert((#[trigger] rest[x - 1]).id == id);
                }
            }
            if exists|q: int|
                j <= q < cm.len() && (#[trigger] cm[q]).id == id && item_ts(im, cm[q].id)
                    != cm[q].published {
                let q = choose|q: int|
                    j <= q < cm.len() && (#[trigger] cm[q]).id == id && item_ts(im, cm[q].id)
                        != cm[q].published;
                if q == j {
                    assert((#[trigger] cur[0]).id == id);
                } else {
                    assert(j + 1 <= q < cm.len() && (#[trigger] cm[q]).id == id && item_ts(
                        im,
                        cm[q].id,
                    ) != cm[q].published);
                    let x = choose|x: int| 0 <= x < rest.len() && (#[trigger] rest[x]).id == id;
                    assert((#[trigger] cur[x + 1]).id == id);
                }
            }
        } else {
            assert(cur =~= rest);
            if exists|q: int|
                j <= q < cm.len() && (#[trigger] cm[q]).id == id && item_ts(im, cm[q].id)
                    != cm[q].published {
                let q = choose|q: int|
                    j <= q < cm.len() && (#[trigger] cm[q]).id == id && item_ts(im, cm[q].id)
                        != cm[q].published;
                assert(q != j);
                assert(j + 1 <= q < cm.len() && (#[trigger] cm[q]).id == id && item_ts(
                    im,
                    cm[q].id,
                ) != cm[q].published);
            }
        }
    }
}

/// Every newly-seen row carries the summary's instant for its id.
proof fn lemma_news_pub(im: Seq<ItemV>, cm: Seq<RowV>, feed_id: i64, now: i64, j: int)
    requires
        forall|a: int, b: int|
            0 <= a < b < im.len() ==> (#[trigger] im[a]).id != (#[trigger] im[b]).id,
    ensures
        forall|x: int|
            0 <= x < diff_news_from(im, cm, feed_id, now, j).len()
                ==> (#[trigger] diff_news_from(im, cm, feed_id, now, j)[x]).published == item_ts(
                im,
                diff_news_from(im, cm, feed_id, now, j)[x].id,
            ),
    decreases im.len() - j,
{
    if 0 <= j < im.len() {
        lemma_news_pub(im, cm, feed_id, now, j + 1);
        let rest = diff_news_from(im, cm, feed_id, now, j + 1);
        let cur = diff_news_from(im, cm, feed_id, now, j);
        if row_find(cm, im[j].id) is None {
            lemma_item_find_unique(im, j);
            assert(forall|x: int| 1 <= x < cur.len() ==> #[trigger] cur[x] == rest[x - 1]);
            assert(cur[0].published == item_ts(im, cur[0].id));
        }
    }
}

/// A newly-seen row for an id is appended exactly when the summary has the
/// id but the cache does not.
proof fn lemma_news_mem(
    im: Seq<ItemV>,
    cm: Seq<RowV>,
    feed_id: i64,
    now: i64,
    j: int,
    id: Seq<char>,
)
    requires
        j >= 0,
    ensures
        (exists|x: int|
            0 <= x < diff_news_from(im, cm, feed_id, now, j).len()
                && (#[trigger] diff_news_from(im, cm, feed_id, now, j)[x]).id == id) <==> (
        exists|q: int|
            j <= q < im.len() && (#[trigger] im[q]).id == id && row_find(cm, id) is None),
    decreases im.len() - j,
{
    if 0 <= j < im.len() {
        lemma_news_mem(im, cm, feed_id, now, j + 1, id);
        let rest = diff_news_from(im, cm, feed_id, now, j + 1);
        let cur = diff_news_from(im, cm, feed_id, now, j);
        if row_find(cm, im[j].id) is None {
            assert(cur[0].id == im[j].id);
            assert(forall|x: int| 1 <= x < cur.len() ==> #[trigger] cur[x] == rest[x - 1]);
            if exists|x: int| 0 <= x < cur.len() && (#[trigger] cur[x]).id == id {
                let x = choose|x: int| 0 <= x < cur.len() && (#[trigger] cur[x]).id == id;
                if x == 0 {
                    assert((#[trigger] im[j]).id == id);
                } else {
                    assert((#[trigger] rest[x - 1]).id == id);
                }
            }
            if exists|q: int|
                j <= q < im.len() && (#[trigger] im[q]).id == id && row_find(cm, id) is None {
                let q = choose|q: int|
                    j <= q < im.len() && (#[trigger] im[q]).id == id && row_find(cm, id) is None;
                if q == j {
                    assert((#[trigger] cur[0]).id == id);
                } else {
                    assert(j + 1 <= q < im.len() && (#[trigger] im[q]).id == id && row_find(
                        cm,
                        id,
                    ) is None);
                    let x = choose|x: int| 0 <= x < rest.len() && (#[trigger] rest[x]).id == id;
                    assert((#[trigger] cur[x + 1]).id == id);
                }
            }
        } else {
            assert(cur =~= rest);
            if exists|q: int|
                j <= q < im.len() && (#[trigger] im[q]).id == id && row_find(cm, id) is None {
                let q = choose|q: int|
                    j <= q < im.len() && (#[trigger] im[q]).id == id && row_find(cm, id) is None;
                assert(q != j);
                assert(j + 1 <= q < im.len() && (#[trigger] im[q]).id == id && row_find(
                    cm,
                    id,
                ) is None);
            }
        }
    }
}

proof fn lemma_item_find_unique(im: Seq<ItemV>, q: int)
    requires
        forall|a: int, b: int|
            0 <= a < b < im.len() ==> (#[trigger] im[a]).id != (#[trigger] im[b]).id,
        0 <= q < im.len(),
    ensures
        item_find(im, im[q].id) == Option::Some(im[q]),
    decreases im.len(),
{
    if q > 0 {
        assert(im[0].id != im[q].id);
        assert(forall|a: int, b: int|
            0 <= a < b < im.skip(1).len() ==> (#[trigger] im.skip(1)[a]).id != (
            #[trigger] im.skip(1)[b]).id) by {
            assert(forall|j: int| 0 <= j < im.skip(1).len() ==> #[trigger] im.skip(1)[j]
                == im[j + 1]);
        }
        lemma_item_find_unique(im.skip(1), q - 1);
        assert(im.skip(1)[q - 1] == im[q]);
    }
}

proof fn lemma_updates_empty(im: Seq<ItemV>, cm: Seq<RowV>, feed_id: i64, now: i64, j: int)
    requires
        forall|q: int|
            0 <= q < cm.len() ==> item_ts(im, (#[trigger] cm[q]).id) == cm[q].published,
    ensures
        diff_updates_from(im, cm, feed_id, now, j).len() == 0,
    decreases cm.len() - j,
{
    if 0 <= j < cm.len() {
        lemma_updates_empty(im, cm, feed_id, now, j + 1);
    }
}

proof fn lemma_news_empty(im: Seq<ItemV>, cm: Seq<RowV>, feed_id: i64, now: i64, j: int)
    requires
        forall|q: int| 0 <= q < im.len() ==> row_find(cm, (#[trigger] im[q]).id) is Some,
    ensures
        diff_news_from(im, cm, feed_id, now, j).len() == 0,
    decreases im.len() - j,
{
    if 0 <= j < im.len() {
        lemma_news_empty(im, cm, feed_id, now, j + 1);
    }
}

/// Running the differ, letting the store absorb the appended rows, and
/// running it again on the same summary appends nothing the second time.
///
/// `cm1` is the reduced cached map of the first run; `cm2` is any reduced
/// cached map in which each id carries the published instant of its first
/// appended row when the first run appended one, and its old instant
/// otherwise — which is what absorbing rows noticed later than everything
/// before them does.
pub proof fn lemma_diff_idempotent(
    im: Seq<ItemV>,
    cm1: Seq<RowV>,
    cm2: Seq<RowV>,
    feed_id: i64,
    now: i64,
    feed_id2: i64,
    now2: i64,
)
    requires
        forall|a: int, b: int|
            0 <= a < b < im.len() ==> (#[trigger] im[a]).id != (#[trigger] im[b]).id,
        forall|a: int, b: int|
            0 <= a < b < cm1.len() ==> (#[trigger] cm1[a]).id != (#[trigger] cm1[b]).id,
        forall|j: int|
            0 <= j < cm2.len() ==> match row_find(
                diff_spec(im, cm1, feed_id, now),
                (#[trigger] cm2[j]).id,
            ) {
                Option::Some(u) => cm2[j].published == u.published,
                Option::None => match row_find(cm1, cm2[j].id) {
                    Option::Some(c) => cm2[j].published == c.published,
                    Option::None => false,
                },
            },
        forall|j: int|
            0 <= j < im.len() ==> (row_find(cm1, (#[trigger] im[j]).id) is Some || row_find(
                diff_spec(im, cm1, feed_id, now),
                im[j].id,
            ) is Some) ==> row_find(cm2, im[j].id) is Some,
    ensures
        diff_spec(im, cm2, feed_id2, now2).len() == 0,
{
    let ups = diff_spec(im, cm1, feed_id, now);
    let u0 = diff_updates_from(im, cm1, feed_id, now, 0);
    let n0 = diff_news_from(im, cm1, feed_id, now, 0);
    lemma_updates_pub(im, cm1, feed_id, now, 0);
    lemma_news_pub(im, cm1, feed_id, now, 0);
    // Every row of `ups` carries the summary's instant for its id.
    assert forall|x: int| 0 <= x < ups.len() implies (#[trigger] ups[x]).published == item_ts(
        im,
        ups[x].id,
    ) by {
        if x < u0.len() {
            assert(ups[x] == u0[x]);
        } else {
            assert(ups[x] == n0[x - u0.len()]);
        }
    }
    // Part one: every id in cm2 now carries the summary's instant.
    assert forall|q: int| 0 <= q < cm2.len() implies item_ts(im, (#[trigger] cm2[q]).id)
        == cm2[q].published by {
        let id = cm2[q].id;
        match row_find(ups, id) {
            Option::Some(u) => {
                lemma_row_find_some(ups, id);
                let x = choose|x: int| 0 <= x < ups.len() && #[trigger] ups[x] == u;
                assert(u.published == item_ts(im, id));
            },
            Option::None => {
                let c = row_find(cm1, id).unwrap();
                lemma_row_find_some(cm1, id);
                let y = choose|y: int| 0 <= y < cm1.len() && #[trigger] cm1[y] == c;
                if item_ts(im, id) != c.published {
                    // The first run would have appended a row for this id.
                    lemma_updates_mem(im, cm1, feed_id, now, 0, id);
                    assert(exists|q2: int|
                        0 <= q2 < cm1.len() && (#[trigger] cm1[q2]).id == id && item_ts(
                            im,
                            cm1[q2].id,
                        ) != cm1[q2].published) by {
                        assert(cm1[y].id == id && item_ts(im, cm1[y].id) != cm1[y].published);
                    }
                    assert(exists|x: int| 0 <= x < u0.len() && (#[trigger] u0[x]).id == id);
                    let x = choose|x: int| 0 <= x < u0.len() && (#[trigger] u0[x]).id == id;
                    assert(ups[x].id == id);
                    lemma_row_find_none_contra(ups, id, x);
                }
            },
        }
    }
    lemma_updates_empty(im, cm2, feed_id2, now2, 0);
    // Part two: every summary id is present in cm2.
    assert forall|q: int| 0 <= q < im.len() implies row_find(
        cm2,
        (#[trigger] im[q]).id,
    ) is Some by {
        let id = im[q].id;
        if row_find(cm1, id) is None {
            lemma_news_mem(im, cm1, feed_id, now, 0, id);
            assert(exists|q2: int|
                0 <= q2 < im.len() && (#[trigger] im[q2]).id == id && row_find(cm1, id) is None);
            assert(exists|x: int| 0 <= x < n0.len() && (#[trigger] n0[x]).id == id);
            let x = choose|x: int| 0 <= x < n0.len() && (#[trigger] n0[x]).id == id;
            assert(ups[u0.len() + x].id == id);
            lemma_row_find_none_contra(ups, id, u0.len() + x);
        }
    }
    lemma_news_empty(im, cm2, feed_id2, now2, 0);
    assert(diff_spec(im, cm2, feed_id2, now2).len() == 0);
}

/// A sequence containing a row with an id cannot fail to find that id.
proof fn lemma_row_find_none_contra(rows: Seq<RowV>, id: Seq<char>, x: int)
    requires
        0 <= x < rows.len(),
        rows[x].id == id,
    ensures
        row_find(rows, id) is Some,
    decreases rows.len(),
{
    if rows[0].id != id {
        assert(rows.skip(1)[x - 1] == rows[x]);
        lemma_row_find_none_contra(rows.skip(1), id, x - 1);
    }
}

proof fn lemma_row_find_unique(rows: Seq<RowV>, q: int)
    requires
        forall|a: int, b: int|
            0 <= a < b < rows.len() ==> (#[trigger] rows[a]).id != (#[trigger] rows[b]).id,
        0 <= q < rows.len(),
    ensures
        row_find(rows, rows[q].id) == Option::Some(rows[q]),
    decreases rows.len(),
{
    if q > 0 {
        assert(rows[0].id != rows[q].id);
        assert(forall|a: int, b: int|
            0 <= a < b < rows.skip(1).len() ==> (#[trigger] rows.skip(1)[a]).id != (
            #[trigger] rows.skip(1)[b]).id) by {
            assert(forall|j: int| 0 <= j < rows.skip(1).len() ==> #[trigger] rows.skip(1)[j]
                == rows[j + 1]);
        }
        lemma_row_find_unique(rows.skip(1), q - 1);
        assert(rows.skip(1)[q - 1] == rows[q]);
    }
}

/// A find in a prefix survives appending one row.
proof fn lemma_row_find_grow(rows: Seq<RowV>, id: Seq<char>)
    requires
        rows.len() >= 1,
        row_find(rows.drop_last(), id) is Some,
    ensures
        row_find(rows, id) == row_find(rows.drop_last(), id),
    decreases rows.len(),
{
    if rows[0].id != id {
        assert(rows.drop_last()[0] == rows[0]);
        assert(rows.drop_last().skip(1) =~= rows.skip(1).drop_last());
        lemma_row_find_grow(rows.skip(1), id);
    } else {
        assert(rows.drop_last()[0] == rows[0]);
    }
}

/// When only the appended row carries the id, the find returns it.
proof fn lemma_row_find_grow_new(rows: Seq<RowV>, id: Seq<char>)
    requires
        rows.len() >= 1,
        row_find(rows.drop_last(), id) is None,
        rows.last().id == id,
    ensures
        row_find(rows, id) == Option::Some(rows.last()),
    decreases rows.len(),
{
    if rows.len() == 1 {
    } else if rows[0].id != id {
        assert(rows.drop_last()[0] == rows[0]);
        assert(rows.drop_last().skip(1) =~= rows.skip(1).drop_last());
        assert(rows.skip(1).last() == rows.last());
        lemma_row_find_grow_new(rows.skip(1), id);
    } else {
        assert(rows.drop_last()[0] == rows[0]);
    }
}

/// Every appended row is noticed at the poll instant.
proof fn lemma_diff_noticed(im: Seq<ItemV>, cm: Seq<RowV>, feed_id: i64, now: i64, j: int)
    ensures
        forall|x: int|
            0 <= x < diff_updates_from(im, cm, feed_id, now, j).len()
                ==> (#[trigger] diff_updates_from(im, cm, feed_id, now, j)[x]).noticed == now,
        forall|x: int|
            0 <= x < diff_news_from(im, cm, feed_id, now, j).len()
                ==> (#[trigger] diff_news_from(im, cm, feed_id, now, j)[x]).noticed == now,
    decreases cm.len() + im.len() - j,
{
    lemma_diff_noticed_u(im, cm, feed_id, now, j);
    lemma_diff_noticed_n(im, cm, feed_id, now, j);
}

proof fn lemma_diff_noticed_u(im: Seq<ItemV>, cm: Seq<RowV>, feed_id: i64, now: i64, j: int)
    ensures
        forall|x: int|
            0 <= x < diff_updates_from(im, cm, feed_id, now, j).len()
                ==> (#[trigger] diff_updates_from(im, cm, feed_id, now, j)[x]).noticed == now,
    decreases cm.len() - j,
{
    if 0 <= j < cm.len() {
        lemma_diff_noticed_u(im, cm, feed_id, now, j + 1);
        let rest = diff_updates_from(im, cm, feed_id, now, j + 1);
        let cur = diff_updates_from(im, cm, feed_id, now, j);
        if item_ts(im, cm[j].id) != cm[j].published {
            assert(forall|x: int| 1 <= x < cur.len() ==> #[trigger] cur[x] == rest[x - 1]);
        }
    }
}

proof fn lemma_diff_noticed_n(im: Seq<ItemV>, cm: Seq<RowV>, feed_id: i64, now: i64, j: int)
    ensures
        forall|x: int|
            0 <= x < diff_news_from(im, cm, feed_id, now, j).len()
                ==> (#[trigger] diff_news_from(im, cm, feed_id, now, j)[x]).noticed == now,
    decreases im.len() - j,
{
    if 0 <= j < im.len() {
        lemma_diff_noticed_n(im, cm, feed_id, now, j + 1);
        let rest = diff_news_from(im, cm, feed_id, now, j + 1);
        let cur = diff_news_from(im, cm, feed_id, now, j);
        if row_find(cm, im[j].id) is None {
            assert(forall|x: int| 1 <= x < cur.len() ==> #[trigger] cur[x] == rest[x - 1]);
        }
    }
}

proof fn lemma_newest_prefix(s1: Seq<RowV>, s2: Seq<RowV>, id: Seq<char>, i: int)
    requires
        0 <= i <= s1.len(),
        i <= s2.len(),
        forall|j: int| 0 <= j < i ==> s1[j] == s2[j],
    ensures
        newest_row_upto(s1, id, i) == newest_row_upto(s2, id, i),
    decreases i,
{
    if i > 0 {
        lemma_newest_prefix(s1, s2, id, i - 1);
    }
}

proof fn lemma_newest_elem(rows: Seq<RowV>, id: Seq<char>, i: int)
    requires
        newest_row_upto(rows, id, i) is Some,
    ensures
        exists|j: int|
            0 <= j < i && j < rows.len() && #[trigger] rows[j] == newest_row_upto(
                rows,
                id,
                i,
            ).unwrap() && rows[j].id == id,
    decreases i,
{
    if !(0 < i <= rows.len()) {
    } else {
        let prev = newest_row_upto(rows, id, i - 1);
        if rows[i - 1].id == id {
            match prev {
                Option::None => {
                    assert(rows[i - 1] == newest_row_upto(rows, id, i).unwrap());
                },
                Option::Some(p) => {
                    if rows[i - 1].noticed > p.noticed {
                        assert(rows[i - 1] == newest_row_upto(rows, id, i).unwrap());
                    } else {
                        lemma_newest_elem(rows, id, i - 1);
                    }
                },
            }
        } else {
            lemma_newest_elem(rows, id, i - 1);
        }
    }
}

/// Reducing a history extended by rows all noticed at one fresh instant:
/// per id, the first fresh row wins when there is one, and the old
/// reduction stands otherwise.
proof fn lemma_newest_append(rows0: Seq<RowV>, ups: Seq<RowV>, id: Seq<char>, now: i64)
    requires
        forall|j: int| 0 <= j < rows0.len() ==> (#[trigger] rows0[j]).noticed < now,
        forall|x: int| 0 <= x < ups.len() ==> (#[trigger] ups[x]).noticed == now,
    ensures
        newest_row_upto(rows0 + ups, id, (rows0 + ups).len() as int) == (match row_find(
            ups,
            id,
        ) {
            Option::Some(u) => Option::Some(u),
            Option::None => newest_row_upto(rows0, id, rows0.len() as int),
        }),
    decreases ups.len(),
{
    if ups.len() == 0 {
        assert(rows0 + ups =~= rows0);
    } else {
        let upsp = ups.drop_last();
        assert(forall|x: int| 0 <= x < upsp.len() ==> #[trigger] upsp[x] == ups[x]);
        lemma_newest_append(rows0, upsp, id, now);
        let all = rows0 + ups;
        let allp = rows0 + upsp;
        let n = all.len() as int;
        assert(all[n - 1] == ups.last());
        assert(forall|j: int| 0 <= j < n - 1 ==> allp[j] == #[trigger] all[j]);
        lemma_newest_prefix(all, allp, id, n - 1);
        let last = ups.last();
        let prev = newest_row_upto(all, id, n - 1);
        assert(prev == newest_row_upto(allp, id, allp.len() as int));
        if last.id == id {
            match row_find(upsp, id) {
                Option::Some(u) => {
                    lemma_row_find_some(upsp, id);
                    assert(u.noticed == now) by {
                        let x = choose|x: int|
                            0 <= x < upsp.len() && #[trigger] upsp[x] == row_find(
                                upsp,
                                id,
                            ).unwrap();
                        assert(ups[x].noticed == now);
                    }
                    assert(!(last.noticed > u.noticed));
                    lemma_row_find_grow(ups, id);
                },
                Option::None => {
                    lemma_row_find_grow_new(ups, id);
                    match newest_row_upto(rows0, id, rows0.len() as int) {
                        Option::Some(p) => {
                            lemma_newest_elem(rows0, id, rows0.len() as int);
                            assert(p.noticed < now) by {
                                let j = choose|j: int|
                                    0 <= j < rows0.len() && #[trigger] rows0[j]
                                        == newest_row_upto(
                                        rows0,
                                        id,
                                        rows0.len() as int,
                                    ).unwrap() && rows0[j].id == id;
                                assert(rows0[j].noticed < now);
                            }
                            assert(last.noticed > p.noticed);
                        },
                        Option::None => {},
                    }
                },
            }
        } else {
            match row_find(upsp, id) {
                Option::Some(u) => {
                    lemma_row_find_grow(ups, id);
                },
                Option::None => {
                    assert(row_find(ups, id) is None) by {
                        if row_find(ups, id) is Some {
                            lemma_row_find_some(ups, id);
                            let x = choose|x: int|
                                0 <= x < ups.len() && #[trigger] ups[x] == row_find(
                                    ups,
                                    id,
                                ).unwrap();
                            if x < ups.len() - 1 {
                                lemma_row_find_none(upsp, id);
                                assert(upsp[x].id == id);
                            } else {
                                assert(last.id == id);
                            }
                        }
                    }
                },
            }
        }
    }
}

/// Polling twice through the executable reduction appends nothing: store
/// the first run's appended rows with the rest of the history, reduce it
/// again as [`create_cached_entry_map`] does, and diff the unchanged
/// summary against that reduction — the second diff is empty.  The two
/// reductions are characterized exactly as `create_cached_entry_map`
/// guarantees them, and every stored notice predates the first poll.
pub proof fn lemma_second_diff_empty(
    im: Seq<ItemV>,
    rows0: Seq<RowV>,
    cm1: Seq<RowV>,
    cm2: Seq<RowV>,
    feed_id: i64,
    now: i64,
    feed_id2: i64,
    now2: i64,
)
    requires
        forall|a: int, b: int|
            0 <= a < b < im.len() ==> (#[trigger] im[a]).id != (#[trigger] im[b]).id,
        forall|a: int, b: int|
            0 <= a < b < cm1.len() ==> (#[trigger] cm1[a]).id != (#[trigger] cm1[b]).id,
        forall|a: int, b: int|
            0 <= a < b < cm2.len() ==> (#[trigger] cm2[a]).id != (#[trigger] cm2[b]).id,
        forall|k: int|
            0 <= k < cm1.len() ==> newest_row_upto(
                rows0,
                (#[trigger] cm1[k]).id,
                rows0.len() as int,
            ) == Option::Some(cm1[k]),
        forall|j: int|
            0 <= j < rows0.len() ==> exists|k: int|
                0 <= k < cm1.len() && cm1[k].id == (#[trigger] rows0[j]).id,
        forall|k: int|
            0 <= k < cm2.len() ==> newest_row_upto(
                rows0 + diff_spec(im, cm1, feed_id, now),
                (#[trigger] cm2[k]).id,
                (rows0 + diff_spec(im, cm1, feed_id, now)).len() as int,
            ) == Option::Some(cm2[k]),
        forall|j: int|
            0 <= j < (rows0 + diff_spec(im, cm1, feed_id, now)).len() ==> exists|k: int|
                0 <= k < cm2.len() && cm2[k].id == (#[trigger] (rows0 + diff_spec(
                    im,
                    cm1,
                    feed_id,
                    now,
                ))[j]).id,
        forall|j: int| 0 <= j < rows0.len() ==> (#[trigger] rows0[j]).noticed < now,
    ensures
        diff_spec(im, cm2, feed_id2, now2).len() == 0,
{
    let ups = diff_spec(im, cm1, feed_id, now);
    let all = rows0 + ups;
    let u0 = diff_updates_from(im, cm1, feed_id, now, 0);
    let n0 = diff_news_from(im, cm1, feed_id, now, 0);
    lemma_diff_noticed(im, cm1, feed_id, now, 0);
    assert forall|x: int| 0 <= x < ups.len() implies (#[trigger] ups[x]).noticed == now by {
        if x < u0.len() {
            assert(ups[x] == u0[x]);
        } else {
            assert(ups[x] == n0[x - u0.len()]);
        }
    }
    // Each reduced row now carries what the first run left for its id.
    assert forall|j: int| 0 <= j < cm2.len() implies match row_find(
        ups,
        (#[trigger] cm2[j]).id,
    ) {
        Option::Some(u) => cm2[j].published == u.published,
        Option::None => match row_find(cm1, cm2[j].id) {
            Option::Some(c) => cm2[j].published == c.published,
            Option::None => false,
        },
    } by {
        let id = cm2[j].id;
        lemma_newest_append(rows0, ups, id, now);
        assert(newest_row_upto(all, id, all.len() as int) == Option::Some(cm2[j]));
        match row_find(ups, id) {
            Option::Some(u) => {
                assert(cm2[j] == u);
            },
            Option::None => {
                assert(newest_row_upto(rows0, id, rows0.len() as int) == Option::Some(cm2[j]));
                lemma_newest_elem(rows0, id, rows0.len() as int);
                let j0 = choose|j0: int|
                    0 <= j0 < rows0.len() && #[trigger] rows0[j0] == cm2[j] && rows0[j0].id
                        == id;
                let k = choose|k: int| 0 <= k < cm1.len() && cm1[k].id == rows0[j0].id;
                lemma_row_find_unique(cm1, k);
                assert(newest_row_upto(rows0, id, rows0.len() as int) == Option::Some(cm1[k]));
            },
        }
    }
    // Every summary id the first run could see is present in the new
    // reduction.
    assert forall|q: int| 0 <= q < im.len() implies ((row_find(
        cm1,
        (#[trigger] im[q]).id,
    ) is Some || row_find(ups, im[q].id) is Some) ==> row_find(cm2, im[q].id) is Some) by {
        let id = im[q].id;
        if row_find(cm1, id) is Some || row_find(ups, id) is Some {
            if row_find(cm1, id) is Some {
                lemma_row_find_some(cm1, id);
                let k = choose|k: int|
                    0 <= k < cm1.len() && #[trigger] cm1[k] == row_find(cm1, id).unwrap();
                assert(newest_row_upto(rows0, id, rows0.len() as int) == Option::Some(cm1[k]));
                lemma_newest_elem(rows0, id, rows0.len() as int);
                let j0 = choose|j0: int|
                    0 <= j0 < rows0.len() && #[trigger] rows0[j0] == cm1[k] && rows0[j0].id
                        == id;
                assert(all[j0].id == id);
                assert(exists|k2: int| 0 <= k2 < cm2.len() && cm2[k2].id == id);
            } else {
                lemma_row_find_some(ups, id);
                let x = choose|x: int|
                    0 <= x < ups.len() && #[trigger] ups[x] == row_find(ups, id).unwrap();
                assert(all[rows0.len() + x].id == id);
                assert(exists|k2: int| 0 <= k2 < cm2.len() && cm2[k2].id == id);
            }
            if row_find(cm2, id) is None {
                lemma_row_find_none(cm2, id);
                assert(false);
            }
        }
    }
    lemma_diff_idempotent(im, cm1, cm2, feed_id, now, feed_id2, now2);
}

} // verus!
