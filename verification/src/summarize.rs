//! The summary of one upstream fetch: per item an identifier, a title, a
//! publish instant, and the feed-level title and privacy marking.  The
//! streaming extraction from XML lives alongside in this module's parsing
//! functions; the types here are what the differ and the store consume.

use vstd::prelude::*;

use crate::CachedEntry;

verus! {

/// One item of the upstream feed, as the summarizer found it.  Only items
/// that carried an id, a parsable timestamp and an audio enclosure become
/// `SummaryItem`s.
#[derive(Debug)]
pub struct SummaryItem {
    pub id: String,
    pub title: String,
    pub timestamp: i64,
}

impl SummaryItem {
    /// Field-for-field copy.
    pub fn duplicate(&self) -> (r: SummaryItem)
        ensures
            r.id@ == self.id@,
            r.title@ == self.title@,
            r.timestamp == self.timestamp,
    {
        SummaryItem { id: self.id.clone(), title: self.title.clone(), timestamp: self.timestamp }
    }
}

impl PartialEq for SummaryItem {
    fn eq(&self, other: &SummaryItem) -> (r: bool) {
        self.id == other.id && self.title == other.title && self.timestamp == other.timestamp
    }
}

impl vstd::std_specs::cmp::PartialEqSpecImpl for SummaryItem {
    open spec fn obeys_eq_spec() -> bool {
        true
    }

    open spec fn eq_spec(&self, other: &SummaryItem) -> bool {
        self.id@ == other.id@ && self.title@ == other.title@ && self.timestamp == other.timestamp
    }
}

/// The whole summary of one fetch.
#[derive(Debug)]
pub struct FeedSummary {
    pub uri: String,
    pub title: String,
    pub marked_private: bool,
    pub items: Vec<SummaryItem>,
}

/// The last item with this id among the first `i` items (upstream maps by
/// id, with later occurrences overriding earlier ones).
pub open spec fn last_item_upto(items: Seq<SummaryItem>, id: Seq<char>, i: int) -> Option<
    SummaryItem,
>
    decreases i,
{
    if i <= 0 || i > items.len() {
        Option::None
    } else if items[i - 1].id@ == id {
        Option::Some(items[i - 1])
    } else {
        last_item_upto(items, id, i - 1)
    }
}

/// Position of the first entry with this id, if any.
fn find_item_pos(r: &Vec<SummaryItem>, id: &String) -> (res: Option<usize>)
    ensures
        match res {
            Option::Some(k) => k < r@.len() && r@[k as int].id@ == id@,
            Option::None => forall|q: int| 0 <= q < r@.len() ==> (#[trigger] r@[q]).id@ != id@,
        },
{
    let n = r.len();
    let mut k: usize = 0;
    while k < n
        invariant
            0 <= k <= n,
            n == r@.len(),
            forall|q: int| 0 <= q < k ==> (#[trigger] r@[q]).id@ != id@,
        decreases n - k,
    {
        if r[k].id == *id {
            return Some(k);
        }
        k = k + 1;
    }
    None
}

/// Field equality between an entry of the map and an item.
pub open spec fn same_item(a: SummaryItem, b: SummaryItem) -> bool {
    a.id@ == b.id@ && a.title@ == b.title@ && a.timestamp == b.timestamp
}

impl FeedSummary {
    /// The items as an id-keyed map: one entry per distinct id, holding the
    /// last item with that id, ids in order of first appearance.
    pub fn id_map(&self) -> (r: Vec<SummaryItem>)
        ensures
            forall|a: int, b: int|
                0 <= a < b < r@.len() ==> (#[trigger] r@[a]).id@ != (#[trigger] r@[b]).id@,
            forall|k: int|
                0 <= k < r@.len() ==> match last_item_upto(
                    self.items@,
                    (#[trigger] r@[k]).id@,
                    self.items@.len() as int,
                ) {
                    Option::Some(it) => same_item(r@[k], it),
                    Option::None => false,
                },
            forall|j: int|
                0 <= j < self.items@.len() ==> exists|k: int|
                    0 <= k < r@.len() && r@[k].id@ == (#[trigger] self.items@[j]).id@,
    {
        let mut r: Vec<SummaryItem> = Vec::new();
        let n = self.items.len();
        let mut i: usize = 0;
        while i < n
            invariant
                0 <= i <= n,
                n == self.items@.len(),
                forall|a: int, b: int|
                    0 <= a < b < r@.len() ==> (#[trigger] r@[a]).id@ != (#[trigger] r@[b]).id@,
                forall|k: int|
                    0 <= k < r@.len() ==> match last_item_upto(
                        self.items@,
                        (#[trigger] r@[k]).id@,
                        i as int,
                    ) {
                        Option::Some(it) => same_item(r@[k], it),
                        Option::None => false,
                    },
                forall|j: int|
                    0 <= j < i ==> exists|k: int|
                        0 <= k < r@.len() && r@[k].id@ == (#[trigger] self.items@[j]).id@,
            decreases n - i,
        {
            let it = &self.items[i];
            let pos = find_item_pos(&r, &it.id);
            proof {
                assert(last_item_upto(self.items@, it.id@, i as int + 1) == Option::Some(
                    self.items@[i as int],
                ));
            }
            let ghost r_old = r@;
            let wit: usize;
            match pos {
                Option::Some(k) => {
                    r.set(k, it.duplicate());
                    wit = k;
                },
                Option::None => {
                    wit = r.len();
                    r.push(it.duplicate());
                },
            }
            proof {
                assert(wit < r@.len() && r@[wit as int].id@ == self.items@[i as int].id@);
                assert forall|j: int| 0 <= j < i + 1 implies exists|k2: int|
                    0 <= k2 < r@.len() && r@[k2].id@ == (#[trigger] self.items@[j]).id@ by {
                    if j < i {
                        let k0 = choose|k0: int|
                            0 <= k0 < r_old.len() && r_old[k0].id@ == self.items@[j].id@;
                        assert(r@[k0].id@ == self.items@[j].id@);
                    } else {
                        assert(r@[wit as int].id@ == self.items@[j].id@);
                    }
                }
            }
            proof {
                assert(forall|k2: int|
                    0 <= k2 < r@.len() && (#[trigger] r@[k2]).id@ != it.id@
                        ==> last_item_upto(self.items@, r@[k2].id@, i as int + 1)
                        == last_item_upto(self.items@, r@[k2].id@, i as int));
                assert(forall|k2: int|
                    0 <= k2 < r@.len() && (#[trigger] r@[k2]).id@ != it.id@ ==> r_old.len() > k2
                        && r@[k2] == r_old[k2]);
                assert(forall|k2: int|
                    0 <= k2 < r_old.len() ==> (#[trigger] r@[k2]).id@ == r_old[k2].id@);
                assert(exists|k2: int|
                    0 <= k2 < r@.len() && (#[trigger] r@[k2]).id@ == self.items@[i as int].id@);
            }
            i = i + 1;
        }
        r
    }

    /// The summary as it would enter an empty cache: each item noticed at
    /// its own publish instant.
    pub fn into_cached_items(self) -> (r: Vec<CachedEntry>)
        ensures
            r@.len() == self.items@.len(),
            forall|j: int|
                0 <= j < r@.len() ==> {
                    &&& (#[trigger] r@[j]).id@ == self.items@[j].id@
                    &&& r@[j].feed_id == 0
                    &&& r@[j].noticed == self.items@[j].timestamp
                    &&& r@[j].published == Option::Some(self.items@[j].timestamp)
                },
    {
        let mut r: Vec<CachedEntry> = Vec::new();
        let n = self.items.len();
        let mut i: usize = 0;
        while i < n
            invariant
                0 <= i <= n,
                n == self.items@.len(),
                r@.len() == i as int,
                forall|j: int|
                    0 <= j < i ==> {
                        &&& (#[trigger] r@[j]).id@ == self.items@[j].id@
                        &&& r@[j].feed_id == 0
                        &&& r@[j].noticed == self.items@[j].timestamp
                        &&& r@[j].published == Option::Some(self.items@[j].timestamp)
                    },
            decreases n - i,
        {
            let it = &self.items[i];
            r.push(
                CachedEntry {
                    id: it.id.clone(),
                    feed_id: 0,
                    noticed: it.timestamp,
                    published: Some(it.timestamp),
                },
            );
            i = i + 1;
        }
        r
    }

    pub fn is_empty(&self) -> (r: bool)
        ensures
            r == (self.items@.len() == 0),
    {
        self.items.len() == 0
    }

    pub fn len(&self) -> (r: usize)
        ensures
            r == self.items@.len(),
    {
        self.items.len()
    }
}


// ------------------------------------------------------------------
// Element names and enclosure detection.
// ------------------------------------------------------------------

pub open spec fn nm_item(n: Seq<u8>) -> bool {
    n =~= seq![105u8, 116u8, 101u8, 109u8] || n =~= seq![101u8, 110u8, 116u8, 114u8, 121u8]
}

pub open spec fn nm_guid(n: Seq<u8>) -> bool {
    n =~= seq![103u8, 117u8, 105u8, 100u8] || n =~= seq![105u8, 100u8]
}

pub open spec fn nm_title(n: Seq<u8>) -> bool {
    n =~= seq![116u8, 105u8, 116u8, 108u8, 101u8]
}

pub open spec fn nm_desc(n: Seq<u8>) -> bool {
    n =~= seq![
        100u8,
        101u8,
        115u8,
        99u8,
        114u8,
        105u8,
        112u8,
        116u8,
        105u8,
        111u8,
        110u8,
    ]
}

pub open spec fn nm_date(n: Seq<u8>) -> bool {
    n =~= seq![112u8, 117u8, 98u8, 68u8, 97u8, 116u8, 101u8] || n =~= seq![
        117u8,
        112u8,
        100u8,
        97u8,
        116u8,
        101u8,
        100u8,
    ]
}

pub open spec fn nm_block(n: Seq<u8>) -> bool {
    n =~= seq![
        105u8,
        116u8,
        117u8,
        110u8,
        101u8,
        115u8,
        58u8,
        98u8,
        108u8,
        111u8,
        99u8,
        107u8,
    ]
}

pub open spec fn nm_enclosure(n: Seq<u8>) -> bool {
    n =~= seq![101u8, 110u8, 99u8, 108u8, 111u8, 115u8, 117u8, 114u8, 101u8]
}

pub open spec fn nm_link(n: Seq<u8>) -> bool {
    n =~= seq![108u8, 105u8, 110u8, 107u8]
}

/// Byte-sequence equality between two names.
pub fn names_equal(n: &Vec<u8>, w: &Vec<u8>) -> (r: bool)
    ensures
        r == (n@ == w@),
{
    if n.len() != w.len() {
        proof {
            assert(n@.len() != w@.len());
        }
        return false;
    }
    let m = n.len();
    let mut q: usize = 0;
    while q < m
        invariant
            0 <= q <= m,
            m == n@.len() == w@.len(),
            forall|z: int| 0 <= z < q ==> n@[z] == w@[z],
        decreases m - q,
    {
        if n[q] != w[q] {
            return false;
        }
        q = q + 1;
    }
    proof {
        assert(n@ =~= w@);
    }
    true
}

/// Byte-sequence equality between a name and a keyword.
pub fn names_equal_lit(n: &Vec<u8>, w: &[u8]) -> (r: bool)
    ensures
        r == (n@ == w@),
{
    name_eq(n, w)
}

/// Byte-sequence equality between a name and a keyword.
fn name_eq(n: &Vec<u8>, w: &[u8]) -> (r: bool)
    ensures
        r == (n@ == w@),
{
    if n.len() != w.len() {
        proof {
            assert(n@.len() != w@.len());
        }
        return false;
    }
    let m = n.len();
    let mut q: usize = 0;
    while q < m
        invariant
            0 <= q <= m,
            m == n@.len() == w@.len(),
            forall|z: int| 0 <= z < q ==> n@[z] == w@[z],
        decreases m - q,
    {
        if n[q] != w[q] {
            return false;
        }
        q = q + 1;
    }
    proof {
        assert(n@ =~= w@);
    }
    true
}

/// The `rel`/`type` flags after folding the first `i` attributes: later
/// occurrences override earlier ones.
pub open spec fn enc_flags_upto(attrs: Seq<(Seq<u8>, Seq<u8>)>, i: int) -> (bool, bool) {
    enc_flags_rec(attrs, i)
}

pub open spec fn enc_flags_rec(attrs: Seq<(Seq<u8>, Seq<u8>)>, i: int) -> (bool, bool)
    decreases i,
{
    if i <= 0 || i > attrs.len() {
        (false, false)
    } else {
        let prev = enc_flags_rec(attrs, i - 1);
        let key = attrs[i - 1].0;
        let val = attrs[i - 1].1;
        if key =~= seq![114u8, 101u8, 108u8] {  // rel
            (seq![101u8, 110u8, 99u8, 108u8, 111u8, 115u8, 117u8, 114u8, 101u8].is_prefix_of(
                val,
            ), prev.1)
        } else if key =~= seq![116u8, 121u8, 112u8, 101u8] {  // type
            (prev.0, seq![97u8, 117u8, 100u8, 105u8, 111u8, 47u8].is_prefix_of(val))
        } else {
            prev
        }
    }
}

/// Whether a tag marks an audio enclosure: an `enclosure` element whose
/// `type` starts with `audio/`, or a `link` element whose `type` starts
/// with `audio/` and whose `rel` starts with `enclosure`.
pub open spec fn spec_is_audio(name: Seq<u8>, attrs: Seq<(Seq<u8>, Seq<u8>)>) -> bool {
    let flags = enc_flags_upto(attrs, attrs.len() as int);
    if nm_enclosure(name) {
        flags.1
    } else if nm_link(name) {
        flags.1 && flags.0
    } else {
        false
    }
}

fn starts_with(v: &Vec<u8>, w: &[u8]) -> (r: bool)
    ensures
        r == w@.is_prefix_of(v@),
{
    if v.len() < w.len() {
        proof {
            assert(!w@.is_prefix_of(v@));
        }
        return false;
    }
    let m = w.len();
    let mut q: usize = 0;
    while q < m
        invariant
            0 <= q <= m,
            m == w@.len(),
            m <= v@.len(),
            forall|z: int| 0 <= z < q ==> v@[z] == w@[z],
        decreases m - q,
    {
        if v[q] != w[q] {
            proof {
                assert(!w@.is_prefix_of(v@));
            }
            return false;
        }
        q = q + 1;
    }
    proof {
        assert(w@.is_prefix_of(v@));
    }
    true
}

/// Whether a tag's raw bytes describe an audio enclosure.
pub fn is_audio_enclosure(raw: &Vec<u8>) -> (r: bool)
    requires
        raw@.len() >= 1,
    ensures
        r == spec_is_audio(
            crate::xml::spec_tag_name(raw@, 1),
            crate::xml::attrs_from(raw@, crate::xml::name_end(raw@, 1)),
        ),
{
    let name = crate::xml::tag_name(raw, 1);
    let attrs = crate::xml::tag_attrs(raw);
    let ghost gattrs = crate::xml::attrs_from(raw@, crate::xml::name_end(raw@, 1));
    let n = attrs.len();
    let mut rel = false;
    let mut ty = false;
    let mut q: usize = 0;
    while q < n
        invariant
            0 <= q <= n,
            n == attrs@.len(),
            gattrs == crate::xml::attrs_view(attrs@),
            (rel, ty) == enc_flags_upto(gattrs, q as int),
        decreases n - q,
    {
        proof {
            assert(gattrs[q as int] == (attrs@[q as int].0@, attrs@[q as int].1@));
        }
        if name_eq(&attrs[q].0, &[114, 101, 108]) {
            rel = starts_with(&attrs[q].1, &[101, 110, 99, 108, 111, 115, 117, 114, 101]);
        } else if name_eq(&attrs[q].0, &[116, 121, 112, 101]) {
            ty = starts_with(&attrs[q].1, &[97, 117, 100, 105, 111, 47]);
        }
        q = q + 1;
    }
    if name_eq(&name, &[101, 110, 99, 108, 111, 115, 117, 114, 101]) {
        ty
    } else if name_eq(&name, &[108, 105, 110, 107]) {
        ty && rel
    } else {
        false
    }
}

// ------------------------------------------------------------------
// The summarizing machine.
// ------------------------------------------------------------------

/// The item being accumulated while inside an `item`/`entry` element.
pub ghost struct GItem {
    pub open_name: Seq<u8>,
    pub id: Option<Seq<u8>>,
    pub title: Option<Seq<u8>>,
    pub ts: Option<i64>,
    pub enc: bool,
}

/// One finished item.
pub ghost struct GOut {
    pub id: Seq<u8>,
    pub title: Seq<u8>,
    pub ts: i64,
}

/// The machine state.
pub ghost struct GSum {
    pub decl: bool,
    pub feed_title: Option<Seq<u8>>,
    pub private: bool,
    pub item: Option<GItem>,
    pub out: Seq<GOut>,
}

pub ghost enum SumOut {
    Failed,
    Done { st: GSum },
}

pub open spec fn init_sum() -> GSum {
    GSum { decl: false, feed_title: Option::None, private: false, item: Option::None, out: Seq::empty() }
}

/// A description used as a title fallback: over 100 characters it is cut
/// to its first 90 characters plus an ellipsis.
pub open spec fn spec_fallback_title(t: Seq<u8>) -> Seq<u8> {
    if crate::xml::count_chars(t, t.len() as int) > 100 {
        t.take(crate::xml::cut_at(t, 0, 90)) + seq![46u8, 46u8, 46u8]
    } else {
        t
    }
}

/// `yes`, case-insensitively.
pub open spec fn spec_is_yes(t: Seq<u8>) -> bool {
    t.len() == 3 && (t[0] == 89 || t[0] == 121) && (t[1] == 69 || t[1] == 101) && (t[2] == 83
        || t[2] == 115)
}

/// Whether a declaration event is the XML declaration (`<?xml ...`).
pub open spec fn spec_is_xml_decl(v: Seq<u8>) -> bool {
    v.len() >= 5 && v[2] == 120 && v[3] == 109 && v[4] == 108
}

/// The streaming extraction, one event at a time, starting at event `i`.
pub open spec fn sum_from(events: Seq<crate::xml::GEvent>, i: int, st: GSum) -> SumOut
    decreases events.len() - i,
        when i >= 0
{
    if i >= events.len() {
        SumOut::Done { st }
    } else {
        match events[i] {
            crate::xml::GEvent::Decl(v) => sum_from(
                events,
                i + 1,
                GSum { decl: st.decl || spec_is_xml_decl(v), ..st },
            ),
            crate::xml::GEvent::Open(v) => {
                let name = crate::xml::spec_tag_name(v, 1);
                if nm_item(name) {
                    sum_from(
                        events,
                        i + 1,
                        GSum {
                            item: Option::Some(
                                GItem {
                                    open_name: name,
                                    id: Option::None,
                                    title: Option::None,
                                    ts: Option::None,
                                    enc: false,
                                },
                            ),
                            ..st
                        },
                    )
                } else if nm_guid(name) && st.item is Some {
                    match rc_from(events, i + 1, name, Seq::empty()) {
                        RcOut::OkText { text, next } => {
                            proof {
                                lemma_rc_next(events, i + 1, name, Seq::empty());
                            }
                            sum_from(
                                events,
                                next,
                                GSum {
                                    item: Option::Some(
                                        GItem { id: Option::Some(text), ..st.item.unwrap() },
                                    ),
                                    ..st
                                },
                            )
                        },
                        RcOut::Failed { .. } => SumOut::Failed,
                    }
                } else if nm_title(name) {
                    match rc_from(events, i + 1, name, Seq::empty()) {
                        RcOut::OkText { text, next } => {
                            proof {
                                lemma_rc_next(events, i + 1, name, Seq::empty());
                            }
                            if st.item is Some {
                                sum_from(
                                    events,
                                    next,
                                    GSum {
                                        item: Option::Some(
                                            GItem {
                                                title: Option::Some(text),
                                                ..st.item.unwrap()
                                            },
                                        ),
                                        ..st
                                    },
                                )
                            } else {
                                sum_from(
                                    events,
                                    next,
                                    GSum { feed_title: Option::Some(text), ..st },
                                )
                            }
                        },
                        RcOut::Failed { next } => {
                            proof {
                                lemma_rc_next(events, i + 1, name, Seq::empty());
                            }
                            sum_from(events, next, st)
                        },
                    }
                } else if nm_desc(name) && st.item is Some && st.item.unwrap().title is None {
                    match rc_from(events, i + 1, name, Seq::empty()) {
                        RcOut::OkText { text, next } => {
                            proof {
                                lemma_rc_next(events, i + 1, name, Seq::empty());
                            }
                            sum_from(
                                events,
                                next,
                                GSum {
                                    item: Option::Some(
                                        GItem {
                                            title: Option::Some(
                                                spec_fallback_title(
                                                    crate::xml::spec_strip_markup(text),
                                                ),
                                            ),
                                            ..st.item.unwrap()
                                        },
                                    ),
                                    ..st
                                },
                            )
                        },
                        RcOut::Failed { next } => {
                            proof {
                                lemma_rc_next(events, i + 1, name, Seq::empty());
                            }
                            sum_from(events, next, st)
                        },
                    }
                } else if nm_date(name) && st.item is Some {
                    match rc_from(events, i + 1, name, Seq::empty()) {
                        RcOut::OkText { text, next } => {
                            proof {
                                lemma_rc_next(events, i + 1, name, Seq::empty());
                            }
                            match crate::time::parsed_date(crate::xml::utf8_decode(text)) {
                                Option::Some(ts) => sum_from(
                                    events,
                                    next,
                                    GSum {
                                        item: Option::Some(
                                            GItem { ts: Option::Some(ts), ..st.item.unwrap() },
                                        ),
                                        ..st
                                    },
                                ),
                                Option::None => sum_from(events, next, st),
                            }
                        },
                        RcOut::Failed { next } => {
                            proof {
                                lemma_rc_next(events, i + 1, name, Seq::empty());
                            }
                            sum_from(events, next, st)
                        },
                    }
                } else if nm_block(name) && st.item is None {
                    match rcu_from(events, i + 1, name, Seq::empty()) {
                        RcOut::OkText { text, next } => {
                            proof {
                                lemma_rcu_next(events, i + 1, name, Seq::empty());
                            }
                            sum_from(events, next, GSum { private: spec_is_yes(text), ..st })
                        },
                        RcOut::Failed { next } => {
                            proof {
                                lemma_rcu_next(events, i + 1, name, Seq::empty());
                            }
                            sum_from(events, next, st)
                        },
                    }
                } else if (nm_enclosure(name) || nm_link(name)) && st.item is Some
                    && spec_is_audio(
                    name,
                    crate::xml::attrs_from(v, crate::xml::name_end(v, 1)),
                ) {
                    sum_from(
                        events,
                        i + 1,
                        GSum {
                            item: Option::Some(GItem { enc: true, ..st.item.unwrap() }),
                            ..st
                        },
                    )
                } else {
                    sum_from(events, i + 1, st)
                }
            },
            crate::xml::GEvent::SelfClose(v) => {
                let name = crate::xml::spec_tag_name(v, 1);
                if (nm_enclosure(name) || nm_link(name)) && st.item is Some && spec_is_audio(
                    name,
                    crate::xml::attrs_from(v, crate::xml::name_end(v, 1)),
                ) {
                    sum_from(
                        events,
                        i + 1,
                        GSum {
                            item: Option::Some(GItem { enc: true, ..st.item.unwrap() }),
                            ..st
                        },
                    )
                } else {
                    sum_from(events, i + 1, st)
                }
            },
            crate::xml::GEvent::Close(v) => {
                let name = crate::xml::spec_tag_name(v, 2);
                match st.item {
                    Option::Some(it) => {
                        if it.open_name == name {
                            let out2 = if it.enc && it.id is Some && it.title is Some
                                && it.ts is Some {
                                st.out.push(
                                    GOut {
                                        id: it.id.unwrap(),
                                        title: it.title.unwrap(),
                                        ts: it.ts.unwrap(),
                                    },
                                )
                            } else {
                                st.out
                            };
                            sum_from(events, i + 1, GSum { item: Option::None, out: out2, ..st })
                        } else {
                            sum_from(events, i + 1, st)
                        }
                    },
                    Option::None => sum_from(events, i + 1, st),
                }
            },
            _ => sum_from(events, i + 1, st),
        }
    }
}

// ------------------------------------------------------------------
// The streaming extraction.
// ------------------------------------------------------------------

/// Why a summary could not be produced.
#[derive(Debug)]
pub enum SummarizeError {
    /// The document could not be read as XML, or an item identifier could
    /// not be read.
    Parse,
    /// No XML declaration was seen and no items were produced.
    NotAFeed,
}

/// The text read out of one element: character data and CDATA fragments,
/// each unescaped and trimmed, concatenated until the matching end tag.
/// Reading fails on an empty result, on any other markup inside the
/// element, or at the end of input; the offending event is consumed.
pub ghost enum RcOut {
    OkText { text: Seq<u8>, next: int },
    Failed { next: int },
}

pub open spec fn rc_from(
    events: Seq<crate::xml::GEvent>,
    i: int,
    name: Seq<u8>,
    acc: Seq<u8>,
) -> RcOut
    decreases events.len() - i,
{
    if i < 0 || i >= events.len() {
        RcOut::Failed { next: events.len() as int }
    } else {
        match events[i] {
            crate::xml::GEvent::Text(v) => match crate::xml::spec_unescape(v) {
                Option::Some(u) => rc_from(events, i + 1, name, acc + crate::xml::spec_trim(u)),
                Option::None => rc_from(events, i + 1, name, acc),
            },
            crate::xml::GEvent::CData(v) => rc_from(
                events,
                i + 1,
                name,
                acc + crate::xml::spec_trim(v.subrange(9, v.len() - 3)),
            ),
            crate::xml::GEvent::Close(v) => {
                if crate::xml::spec_tag_name(v, 2) == name && acc.len() > 0 {
                    RcOut::OkText { text: acc, next: i + 1 }
                } else {
                    RcOut::Failed { next: i + 1 }
                }
            },
            _ => RcOut::Failed { next: i + 1 },
        }
    }
}

pub proof fn lemma_rc_next(events: Seq<crate::xml::GEvent>, i: int, name: Seq<u8>, acc: Seq<u8>)
    requires
        0 <= i <= events.len(),
    ensures
        match rc_from(events, i, name, acc) {
            RcOut::OkText { next, .. } => i < next <= events.len(),
            RcOut::Failed { next } => i <= next <= events.len(),
        },
    decreases events.len() - i,
{
    if i < events.len() {
        match events[i] {
            crate::xml::GEvent::Text(v) => {
                match crate::xml::spec_unescape(v) {
                    Option::Some(u) => {
                        lemma_rc_next(events, i + 1, name, acc + crate::xml::spec_trim(u));
                    },
                    Option::None => {
                        lemma_rc_next(events, i + 1, name, acc);
                    },
                }
            },
            crate::xml::GEvent::CData(v) => {
                lemma_rc_next(
                    events,
                    i + 1,
                    name,
                    acc + crate::xml::spec_trim(v.subrange(9, v.len() - 3)),
                );
            },
            _ => {},
        }
    }
}

/// Executable element-text reader; equal to [`rc_from`].
pub fn read_contents(
    events: &Vec<crate::xml::XmlEvent>,
    i: usize,
    name: &Vec<u8>,
    acc: Vec<u8>,
) -> (r: (Option<Vec<u8>>, usize))
    requires
        i <= events@.len(),
        forall|q: int| 0 <= q < events@.len() ==> crate::xml::wf_event(#[trigger] events@[q]),
    ensures
        r.1 <= events@.len(),
        match rc_from(crate::xml::events_view(events@), i as int, name@, acc@) {
            RcOut::OkText { text, next } => r.0 is Some && r.0.unwrap()@ == text && r.1 == next,
            RcOut::Failed { next } => r.0 is None && r.1 == next,
        },
    decreases events@.len() - i,
{
    if i >= events.len() {
        return (None, events.len());
    }
    proof {
        assert(crate::xml::events_view(events@)[i as int] == crate::xml::ev_view(
            events@[i as int],
        ));
    }
    match &events[i] {
        crate::xml::XmlEvent::Text(v) => {
            match crate::xml::unescape(v) {
                Option::Some(u) => {
                    let t = crate::xml::trim_bytes(&u);
                    let mut acc2 = acc;
                    let ghost acc2_old = acc2@;
                    acc2.append(&mut {
                        t
                    });
                    proof {
                        assert(acc2@ == acc2_old + crate::xml::spec_trim(
                            crate::xml::spec_unescape(v@).unwrap(),
                        ));
                    }
                    read_contents(events, i + 1, name, acc2)
                },
                Option::None => read_contents(events, i + 1, name, acc),
            }
        },
        crate::xml::XmlEvent::CData(v) => {
            let content = crate::xml::copy_vec_range_pub(v, 9, v.len() - 3);
            let t = crate::xml::trim_bytes(&content);
            let mut acc2 = acc;
            let ghost acc2_old = acc2@;
            acc2.append(&mut {
                t
            });
            proof {
                assert(acc2@ == acc2_old + crate::xml::spec_trim(v@.subrange(9, v@.len() - 3)));
            }
            read_contents(events, i + 1, name, acc2)
        },
        crate::xml::XmlEvent::Close(v) => {
            let n = crate::xml::tag_name(v, 2);
            if n.len() == name.len() && {
                let mut eqb = true;
                let mut q: usize = 0;
                while q < n.len()
                    invariant
                        0 <= q <= n@.len(),
                        n@.len() == name@.len(),
                        eqb == (forall|z: int| 0 <= z < q ==> n@[z] == name@[z]),
                    decreases n@.len() - q,
                {
                    if n[q] != name[q] {
                        eqb = false;
                    }
                    q = q + 1;
                }
                eqb
            } && acc.len() > 0 {
                proof {
                    assert(n@ =~= name@);
                }
                (Some(acc), i + 1)
            } else {
                proof {
                    assert(!(crate::xml::spec_tag_name(v@, 2) == name@ && acc@.len() > 0) || n@
                        =~= name@);
                }
                (None, i + 1)
            }
        },
        _ => (None, i + 1),
    }
}

/// Like [`rc_from`], but for element text compared verbatim: fragments are
/// unescaped and concatenated without trimming, and an empty result is
/// acceptable.  The privacy marking reads its element this way.
pub open spec fn rcu_from(
    events: Seq<crate::xml::GEvent>,
    i: int,
    name: Seq<u8>,
    acc: Seq<u8>,
) -> RcOut
    decreases events.len() - i,
{
    if i < 0 || i >= events.len() {
        RcOut::Failed { next: events.len() as int }
    } else {
        match events[i] {
            crate::xml::GEvent::Text(v) => match crate::xml::spec_unescape(v) {
                Option::Some(u) => rcu_from(events, i + 1, name, acc + u),
                Option::None => rcu_from(events, i + 1, name, acc),
            },
            crate::xml::GEvent::CData(v) => rcu_from(
                events,
                i + 1,
                name,
                acc + v.subrange(9, v.len() - 3),
            ),
            crate::xml::GEvent::Close(v) => {
                if crate::xml::spec_tag_name(v, 2) == name {
                    RcOut::OkText { text: acc, next: i + 1 }
                } else {
                    RcOut::Failed { next: i + 1 }
                }
            },
            _ => RcOut::Failed { next: i + 1 },
        }
    }
}

pub proof fn lemma_rcu_next(events: Seq<crate::xml::GEvent>, i: int, name: Seq<u8>, acc: Seq<u8>)
    requires
        0 <= i <= events.len(),
    ensures
        match rcu_from(events, i, name, acc) {
            RcOut::OkText { next, .. } => i < next <= events.len(),
            RcOut::Failed { next } => i <= next <= events.len(),
        },
    decreases events.len() - i,
{
    if i < events.len() {
        match events[i] {
            crate::xml::GEvent::Text(v) => {
                match crate::xml::spec_unescape(v) {
                    Option::Some(u) => {
                        lemma_rcu_next(events, i + 1, name, acc + u);
                    },
                    Option::None => {
                        lemma_rcu_next(events, i + 1, name, acc);
                    },
                }
            },
            crate::xml::GEvent::CData(v) => {
                lemma_rcu_next(events, i + 1, name, acc + v.subrange(9, v.len() - 3));
            },
            _ => {},
        }
    }
}

/// Executable untrimmed element-text reader; equal to [`rcu_from`].
fn read_contents_raw(
    events: &Vec<crate::xml::XmlEvent>,
    i: usize,
    name: &Vec<u8>,
    acc: Vec<u8>,
) -> (r: (Option<Vec<u8>>, usize))
    requires
        i <= events@.len(),
        forall|q: int| 0 <= q < events@.len() ==> crate::xml::wf_event(#[trigger] events@[q]),
    ensures
        r.1 <= events@.len(),
        match rcu_from(crate::xml::events_view(events@), i as int, name@, acc@) {
            RcOut::OkText { text, next } => r.0 is Some && r.0.unwrap()@ == text && r.1 == next,
            RcOut::Failed { next } => r.0 is None && r.1 == next,
        },
    decreases events@.len() - i,
{
    if i >= events.len() {
        return (None, events.len());
    }
    proof {
        assert(crate::xml::events_view(events@)[i as int] == crate::xml::ev_view(
            events@[i as int],
        ));
    }
    match &events[i] {
        crate::xml::XmlEvent::Text(v) => {
            match crate::xml::unescape(v) {
                Option::Some(u) => {
                    let mut acc2 = acc;
                    let ghost acc2_old = acc2@;
                    acc2.append(&mut {
                        u
                    });
                    proof {
                        assert(acc2@ == acc2_old + crate::xml::spec_unescape(v@).unwrap());
                    }
                    read_contents_raw(events, i + 1, name, acc2)
                },
                Option::None => read_contents_raw(events, i + 1, name, acc),
            }
        },
        crate::xml::XmlEvent::CData(v) => {
            let content = crate::xml::copy_vec_range_pub(v, 9, v.len() - 3);
            let mut acc2 = acc;
            let ghost acc2_old = acc2@;
            acc2.append(&mut {
                content
            });
            proof {
                assert(acc2@ == acc2_old + v@.subrange(9, v@.len() - 3));
            }
            read_contents_raw(events, i + 1, name, acc2)
        },
        crate::xml::XmlEvent::Close(v) => {
            let n = crate::xml::tag_name(v, 2);
            if names_equal(&n, name) {
                (Some(acc), i + 1)
            } else {
                (None, i + 1)
            }
        },
        _ => (None, i + 1),
    }
}

// ------------------------------------------------------------------
// The executable machine.
// ------------------------------------------------------------------

struct ExItem {
    open_name: Vec<u8>,
    id: Option<Vec<u8>>,
    title: Option<Vec<u8>>,
    ts: Option<i64>,
    enc: bool,
}

struct ExOut {
    id: Vec<u8>,
    title: Vec<u8>,
    ts: i64,
}

pub open spec fn obytes(o: Option<Vec<u8>>) -> Option<Seq<u8>> {
    match o {
        Option::Some(v) => Option::Some(v@),
        Option::None => Option::None,
    }
}

spec fn item_view(it: ExItem) -> GItem {
    GItem {
        open_name: it.open_name@,
        id: obytes(it.id),
        title: obytes(it.title),
        ts: it.ts,
        enc: it.enc,
    }
}

spec fn oitem_view(o: Option<ExItem>) -> Option<GItem> {
    match o {
        Option::Some(it) => Option::Some(item_view(it)),
        Option::None => Option::None,
    }
}

spec fn outs_view(s: Seq<ExOut>) -> Seq<GOut> {
    s.map_values(|o: ExOut| GOut { id: o.id@, title: o.title@, ts: o.ts })
}

struct SumDone {
    decl: bool,
    feed_title: Option<Vec<u8>>,
    private: bool,
    out: Vec<ExOut>,
}

/// The machine, executable; equal to [`sum_from`].
#[verifier::rlimit(80)]
fn run_sum(
    events: &Vec<crate::xml::XmlEvent>,
    i: usize,
    decl: bool,
    feed_title: Option<Vec<u8>>,
    private: bool,
    item: Option<ExItem>,
    out: Vec<ExOut>,
) -> (r: Option<SumDone>)
    requires
        i <= events@.len(),
        forall|q: int| 0 <= q < events@.len() ==> crate::xml::wf_event(#[trigger] events@[q]),
    ensures
        ({
            let st0 = GSum {
                decl,
                feed_title: obytes(feed_title),
                private,
                item: oitem_view(item),
                out: outs_view(out@),
            };
            match sum_from(crate::xml::events_view(events@), i as int, st0) {
                SumOut::Failed => r is None,
                SumOut::Done { st } => match r {
                    Option::Some(d) => st.decl == d.decl && st.feed_title == obytes(
                        d.feed_title,
                    ) && st.private == d.private && st.out == outs_view(d.out@),
                    Option::None => false,
                },
            }
        }),
    decreases events@.len() - i,
{
    let ghost st0 = GSum {
        decl,
        feed_title: obytes(feed_title),
        private,
        item: oitem_view(item),
        out: outs_view(out@),
    };
    if i >= events.len() {
        return Some(SumDone { decl, feed_title, private, out });
    }
    proof {
        assert(crate::xml::events_view(events@)[i as int] == crate::xml::ev_view(
            events@[i as int],
        ));
    }
    match &events[i] {
        crate::xml::XmlEvent::Decl(v) => {
            let d2 = decl || (v.len() >= 5 && v[2] == 120 && v[3] == 109 && v[4] == 108);
            run_sum(events, i + 1, d2, feed_title, private, item, out)
        },
        crate::xml::XmlEvent::Open(v) => {
            let name = crate::xml::tag_name(v, 1);
            let is_item = name_eq(&name, &[105, 116, 101, 109]) || name_eq(
                &name,
                &[101, 110, 116, 114, 121],
            );
            let is_guid = name_eq(&name, &[103, 117, 105, 100]) || name_eq(&name, &[105, 100]);
            let is_title = name_eq(&name, &[116, 105, 116, 108, 101]);
            let is_desc = name_eq(
                &name,
                &[100, 101, 115, 99, 114, 105, 112, 116, 105, 111, 110],
            );
            let is_date = name_eq(&name, &[112, 117, 98, 68, 97, 116, 101]) || name_eq(
                &name,
                &[117, 112, 100, 97, 116, 101, 100],
            );
            let is_block = name_eq(
                &name,
                &[105, 116, 117, 110, 101, 115, 58, 98, 108, 111, 99, 107],
            );
            let is_enc_name = name_eq(
                &name,
                &[101, 110, 99, 108, 111, 115, 117, 114, 101],
            ) || name_eq(&name, &[108, 105, 110, 107]);
            if is_item {
                let it = ExItem {
                    open_name: name,
                    id: None,
                    title: None,
                    ts: None,
                    enc: false,
                };
                run_sum(events, i + 1, decl, feed_title, private, Some(it), out)
            } else if is_guid && item.is_some() {
                let (text, next) = read_contents(events, i + 1, &name, Vec::new());
                proof {
                    lemma_rc_next(crate::xml::events_view(events@), i as int + 1, name@, Seq::empty());
                }
                match text {
                    Option::Some(t) => {
                        let mut it = match item {
                            Option::Some(it) => it,
                            Option::None => ExItem {
                                open_name: Vec::new(),
                                id: None,
                                title: None,
                                ts: None,
                                enc: false,
                            },
                        };
                        it.id = Some(t);
                        run_sum(events, next, decl, feed_title, private, Some(it), out)
                    },
                    Option::None => None,
                }
            } else if is_title {
                let (text, next) = read_contents(events, i + 1, &name, Vec::new());
                proof {
                    lemma_rc_next(crate::xml::events_view(events@), i as int + 1, name@, Seq::empty());
                }
                match text {
                    Option::Some(t) => {
                        if item.is_some() {
                            let mut it = match item {
                                Option::Some(it) => it,
                                Option::None => ExItem {
                                    open_name: Vec::new(),
                                    id: None,
                                    title: None,
                                    ts: None,
                                    enc: false,
                                },
                            };
                            it.title = Some(t);
                            run_sum(events, next, decl, feed_title, private, Some(it), out)
                        } else {
                            run_sum(events, next, decl, Some(t), private, item, out)
                        }
                    },
                    Option::None => run_sum(events, next, decl, feed_title, private, item, out),
                }
            } else if is_desc && item.is_some() && (match &item {
                Option::Some(it) => it.title.is_none(),
                Option::None => false,
            }) {
                let (text, next) = read_contents(events, i + 1, &name, Vec::new());
                proof {
                    lemma_rc_next(crate::xml::events_view(events@), i as int + 1, name@, Seq::empty());
                }
                match text {
                    Option::Some(t) => {
                        let t = crate::xml::strip_markup(&t);
                        let cc = crate::xml::char_count(&t);
                        let short: Vec<u8>;
                        if cc > 100 {
                            let mut cut = crate::xml::take_chars(&t, 90);
                            cut.push(46);
                            cut.push(46);
                            cut.push(46);
                            proof {
                                assert(cut@ =~= spec_fallback_title(t@));
                            }
                            short = cut;
                        } else {
                            short = t;
                        }
                        let mut it = match item {
                            Option::Some(it) => it,
                            Option::None => ExItem {
                                open_name: Vec::new(),
                                id: None,
                                title: None,
                                ts: None,
                                enc: false,
                            },
                        };
                        it.title = Some(short);
                        run_sum(events, next, decl, feed_title, private, Some(it), out)
                    },
                    Option::None => run_sum(events, next, decl, feed_title, private, item, out),
                }
            } else if is_date && item.is_some() {
                let (text, next) = read_contents(events, i + 1, &name, Vec::new());
                proof {
                    lemma_rc_next(crate::xml::events_view(events@), i as int + 1, name@, Seq::empty());
                }
                match text {
                    Option::Some(t) => {
                        let s = crate::xml::bytes_to_string(&t);
                        match crate::time::parse_timestamp(s.as_str()) {
                            Option::Some(ts) => {
                                let mut it = match item {
                                    Option::Some(it) => it,
                                    Option::None => ExItem {
                                        open_name: Vec::new(),
                                        id: None,
                                        title: None,
                                        ts: None,
                                        enc: false,
                                    },
                                };
                                it.ts = Some(ts);
                                run_sum(events, next, decl, feed_title, private, Some(it), out)
                            },
                            Option::None => run_sum(
                                events,
                                next,
                                decl,
                                feed_title,
                                private,
                                item,
                                out,
                            ),
                        }
                    },
                    Option::None => run_sum(events, next, decl, feed_title, private, item, out),
                }
            } else if is_block && item.is_none() {
                let (text, next) = read_contents_raw(events, i + 1, &name, Vec::new());
                proof {
                    lemma_rcu_next(crate::xml::events_view(events@), i as int + 1, name@, Seq::empty());
                }
                match text {
                    Option::Some(t) => {
                        let yes = t.len() == 3 && (t[0] == 89 || t[0] == 121) && (t[1] == 69
                            || t[1] == 101) && (t[2] == 83 || t[2] == 115);
                        run_sum(events, next, decl, feed_title, yes, item, out)
                    },
                    Option::None => run_sum(events, next, decl, feed_title, private, item, out),
                }
            } else if is_enc_name && item.is_some() && is_audio_enclosure(v) {
                let mut it = match item {
                    Option::Some(it) => it,
                    Option::None => ExItem {
                        open_name: Vec::new(),
                        id: None,
                        title: None,
                        ts: None,
                        enc: false,
                    },
                };
                it.enc = true;
                run_sum(events, i + 1, decl, feed_title, private, Some(it), out)
            } else {
                run_sum(events, i + 1, decl, feed_title, private, item, out)
            }
        },
        crate::xml::XmlEvent::SelfClose(v) => {
            let name = crate::xml::tag_name(v, 1);
            let is_enc_name = name_eq(
                &name,
                &[101, 110, 99, 108, 111, 115, 117, 114, 101],
            ) || name_eq(&name, &[108, 105, 110, 107]);
            if is_enc_name && item.is_some() && is_audio_enclosure(v) {
                let mut it = match item {
                    Option::Some(it) => it,
                    Option::None => ExItem {
                        open_name: Vec::new(),
                        id: None,
                        title: None,
                        ts: None,
                        enc: false,
                    },
                };
                it.enc = true;
                run_sum(events, i + 1, decl, feed_title, private, Some(it), out)
            } else {
                run_sum(events, i + 1, decl, feed_title, private, item, out)
            }
        },
        crate::xml::XmlEvent::Close(v) => {
            let name = crate::xml::tag_name(v, 2);
            match item {
                Option::Some(it) => {
                    if name_eq(&name, &it.open_name) {
                        let mut out2 = out;
                        if it.enc && it.id.is_some() && it.title.is_some() && it.ts.is_some() {
                            let ghost out_old = out2@;
                            let oid = match it.id {
                                Option::Some(x) => x,
                                Option::None => Vec::new(),
                            };
                            let otitle = match it.title {
                                Option::Some(x) => x,
                                Option::None => Vec::new(),
                            };
                            let ots = match it.ts {
                                Option::Some(x) => x,
                                Option::None => 0,
                            };
                            out2.push(ExOut { id: oid, title: otitle, ts: ots });
                            proof {
                                assert(outs_view(out2@) =~= outs_view(out_old).push(
                                    GOut {
                                        id: outs_view(out2@).last().id,
                                        title: outs_view(out2@).last().title,
                                        ts: outs_view(out2@).last().ts,
                                    },
                                ));
                            }
                        }
                        run_sum(events, i + 1, decl, feed_title, private, None, out2)
                    } else {
                        run_sum(events, i + 1, decl, feed_title, private, Some(it), out)
                    }
                },
                Option::None => run_sum(events, i + 1, decl, feed_title, private, None, out),
            }
        },
        _ => {
            run_sum(events, i + 1, decl, feed_title, private, item, out)
        },
    }
}

// ------------------------------------------------------------------
// The public entry points.
// ------------------------------------------------------------------

/// The feed title, or empty text when the feed had none.
pub open spec fn title_or_empty(tv: Option<Seq<char>>) -> Seq<char> {
    match tv {
        Option::Some(t) => t,
        Option::None => Seq::empty(),
    }
}

/// The feed title as character text.
pub open spec fn title_view(o: Option<String>) -> Option<Seq<char>> {
    match o {
        Option::Some(s) => Option::Some(s@),
        Option::None => Option::None,
    }
}

/// How summarizing a document can end, as a function of the bytes alone.
pub ghost enum SumOutcome {
    /// The bytes cannot be read: tokenization fails, or an item identifier
    /// cannot be read.
    Malformed,
    /// Reading succeeded but produced no item and saw no XML declaration.
    NotFeed,
    /// The machine's final state.
    Summary { st: GSum },
}

/// The summary of `xml` as a function of the bytes: the deterministic
/// tokenization run through the machine, with the no-feed check applied.
pub open spec fn spec_summarize(xml: Seq<u8>) -> SumOutcome {
    match crate::xml::spec_tokenize_from(xml, 0) {
        Option::None => SumOutcome::Malformed,
        Option::Some(toks) => match sum_from(toks, 0, init_sum()) {
            SumOut::Failed => SumOutcome::Malformed,
            SumOut::Done { st } => if st.out.len() == 0 && !st.decl {
                SumOutcome::NotFeed
            } else {
                SumOutcome::Summary { st }
            },
        },
    }
}

/// Whether a finished-item list carries exactly the machine's output.
pub open spec fn items_match(out: Seq<GOut>, items: Seq<SummaryItem>) -> bool {
    &&& items.len() == out.len()
    &&& (forall|j: int|
        0 <= j < items.len() ==> {
            &&& (#[trigger] items[j]).id@ == crate::xml::utf8_decode(out[j].id)
            &&& items[j].title@ == crate::xml::utf8_decode(out[j].title)
            &&& items[j].timestamp == out[j].ts
        })
}

/// Whether the returned items, title and flag say what the machine's
/// final state says.
pub open spec fn summary_matches(
    st: GSum,
    items: Seq<SummaryItem>,
    title: Option<Seq<char>>,
    private: bool,
) -> bool {
    &&& items_match(st.out, items)
    &&& title == (match st.feed_title {
        Option::Some(t) => Option::Some(crate::xml::utf8_decode(t)),
        Option::None => Option::<Seq<char>>::None,
    })
    &&& private == st.private
}

/// Extracts the per-item summary, the feed title and the privacy marking
/// from feed XML, in document order: exactly what [`spec_summarize`] says.
/// It succeeds if and only if the deterministic reading does; `Parse` is
/// returned exactly on malformed bytes, `NotAFeed` exactly when reading
/// succeeded with no item and no XML declaration.
pub fn summarize_feed(xml: &[u8]) -> (r: Result<
    (Vec<SummaryItem>, Option<String>, bool),
    SummarizeError,
>)
    ensures
        match r {
            Result::Ok(t) => spec_summarize(xml@) is Summary && summary_matches(
                spec_summarize(xml@)->st,
                t.0@,
                title_view(t.1),
                t.2,
            ),
            Result::Err(e) => match e {
                SummarizeError::Parse => spec_summarize(xml@) is Malformed,
                SummarizeError::NotAFeed => spec_summarize(xml@) is NotFeed,
            },
        },
{
    let events = match crate::xml::tokenize(xml) {
        Result::Ok(evs) => evs,
        Result::Err(_) => {
            return Err(SummarizeError::Parse);
        },
    };
    proof {
        assert(outs_view(Seq::<ExOut>::empty()) =~= Seq::<GOut>::empty());
    }
    let done = match run_sum(&events, 0, false, None, false, None, Vec::new()) {
        Option::Some(d) => d,
        Option::None => {
            return Err(SummarizeError::Parse);
        },
    };
    if done.out.len() == 0 && !done.decl {
        return Err(SummarizeError::NotAFeed);
    }
    let mut items: Vec<SummaryItem> = Vec::new();
    let n = done.out.len();
    let mut j: usize = 0;
    while j < n
        invariant
            0 <= j <= n,
            n == done.out@.len(),
            items@.len() == j as int,
            forall|q: int|
                0 <= q < j ==> {
                    &&& (#[trigger] items@[q]).id@ == crate::xml::utf8_decode(done.out@[q].id@)
                    &&& items@[q].title@ == crate::xml::utf8_decode(done.out@[q].title@)
                    &&& items@[q].timestamp == done.out@[q].ts
                },
        decreases n - j,
    {
        let o = &done.out[j];
        items.push(
            SummaryItem {
                id: crate::xml::bytes_to_string(&o.id),
                title: crate::xml::bytes_to_string(&o.title),
                timestamp: o.ts,
            },
        );
        j = j + 1;
    }
    let title = match done.feed_title {
        Option::Some(t) => Some(crate::xml::bytes_to_string(&t)),
        Option::None => None,
    };
    proof {
        assert(forall|q: int|
            0 <= q < n ==> (#[trigger] outs_view(done.out@)[q]) == (GOut {
                id: done.out@[q].id@,
                title: done.out@[q].title@,
                ts: done.out@[q].ts,
            }));
        let st = spec_summarize(xml@)->st;
        assert(st.out == outs_view(done.out@));
        assert(summary_matches(st, items@, title_view(title), done.private));
        let tt = (items, title, done.private);
        assert(tt.0 == items && tt.1 == title && tt.2 == done.private);
        assert(summary_matches(st, tt.0@, title_view(tt.1), tt.2));
    }
    Ok((items, title, done.private))
}

// ------------------------------------------------------------------
// Output ordering.
// ------------------------------------------------------------------

/// The input, reversed.
pub open spec fn rev_seq(s: Seq<SummaryItem>) -> Seq<SummaryItem> {
    Seq::new(s.len(), |i: int| s[s.len() - 1 - i])
}

/// Where a stable insertion by timestamp puts a new item: before the first
/// entry with a strictly later timestamp.
pub open spec fn sort_pos(acc: Seq<SummaryItem>, t: i64) -> int
    decreases acc.len(),
{
    if acc.len() == 0 {
        0
    } else if acc[0].timestamp > t {
        0
    } else {
        1 + sort_pos(acc.skip(1), t)
    }
}

/// Stable insertion sort by timestamp, folded over the first `i` items.
pub open spec fn sort_fold(s: Seq<SummaryItem>, i: int) -> Seq<SummaryItem>
    decreases i,
{
    if i <= 0 || i > s.len() {
        Seq::empty()
    } else {
        let acc = sort_fold(s, i - 1);
        proof {
            lemma_sort_pos_bounds(acc, s[i - 1].timestamp);
        }
        acc.insert(sort_pos(acc, s[i - 1].timestamp), s[i - 1])
    }
}

pub proof fn lemma_sort_pos_bounds(acc: Seq<SummaryItem>, t: i64)
    ensures
        0 <= sort_pos(acc, t) <= acc.len(),
        sort_pos(acc, t) < acc.len() ==> acc[sort_pos(acc, t)].timestamp > t,
        forall|q: int| 0 <= q < sort_pos(acc, t) ==> (#[trigger] acc[q]).timestamp <= t,
    decreases acc.len(),
{
    if acc.len() > 0 && acc[0].timestamp <= t {
        lemma_sort_pos_bounds(acc.skip(1), t);
        assert(forall|q: int| 1 <= q < acc.len() ==> acc.skip(1)[q - 1] == #[trigger] acc[q]);
    }
}

/// Reverses the items (upstream feeds are typically newest first), then
/// stable-sorts them ascending by timestamp.
pub fn order_items(items: Vec<SummaryItem>) -> (r: Vec<SummaryItem>)
    ensures
        r@ == sort_fold(rev_seq(items@), items@.len() as int),
        forall|a: int, b: int|
            0 <= a < b < r@.len() ==> (#[trigger] r@[a]).timestamp <= (#[trigger] r@[b]).timestamp,
{
    let ghost orig = items@;
    let n = items.len();
    let mut items = items;
    let mut rev: Vec<SummaryItem> = Vec::new();
    while items.len() > 0
        invariant
            items@.len() + rev@.len() == orig.len(),
            items@ == orig.take(items@.len() as int),
            forall|q: int| 0 <= q < rev@.len() ==> (#[trigger] rev@[q]) == orig[orig.len() - 1 - q],
        decreases items@.len(),
    {
        let it = match items.pop() {
            Option::Some(it) => it,
            Option::None => {
                proof {
                    assert(false);
                }
                return rev;
            },
        };
        proof {
            assert(it == orig[items@.len() as int]);
            assert(items@ =~= orig.take(items@.len() as int));
        }
        rev.push(it);
    }
    proof {
        assert(rev@ =~= rev_seq(orig));
    }
    let mut r: Vec<SummaryItem> = Vec::new();
    let mut rev = rev;
    while rev.len() > 0
        invariant
            rev@.len() <= orig.len(),
            rev@ == rev_seq(orig).skip(orig.len() - rev@.len()),
            r@ == sort_fold(rev_seq(orig), orig.len() - rev@.len()),
            forall|a: int, b: int|
                0 <= a < b < r@.len() ==> (#[trigger] r@[a]).timestamp <= (
                #[trigger] r@[b]).timestamp,
        decreases rev@.len(),
    {
        let ghost i = orig.len() - rev@.len();
        let ghost rev_old = rev@;
        let it = rev.remove(0);
        proof {
            assert(it == rev_seq(orig)[i as int]);
            assert(rev@ =~= rev_seq(orig).skip(i as int + 1));
            lemma_sort_pos_bounds(r@, it.timestamp);
        }
        let t = it.timestamp;
        let rn = r.len();
        proof {
            assert(r@.skip(0) =~= r@);
        }
        let mut p: usize = 0;
        while p < rn && r[p].timestamp <= t
            invariant
                0 <= p <= rn,
                rn == r@.len(),
                sort_pos(r@, t) == p as int + sort_pos(r@.skip(p as int), t),
            decreases rn - p,
        {
            proof {
                assert(r@.skip(p as int)[0] == r@[p as int]);
                assert(r@.skip(p as int).skip(1) =~= r@.skip(p as int + 1));
            }
            p = p + 1;
        }
        proof {
            if p < rn {
                assert(r@.skip(p as int)[0] == r@[p as int]);
            } else {
                assert(r@.skip(p as int).len() == 0);
            }
            assert(sort_pos(r@, t) == p as int);
            lemma_sort_pos_bounds(r@, t);
        }
        let ghost r_old = r@;
        r.insert(p, it);
        proof {
            assert(r@ == r_old.insert(p as int, it));
            assert(r@ =~= sort_fold(rev_seq(orig), i as int + 1));
        }
    }
    proof {
        assert(rev@.len() == 0);
        assert(r@ == sort_fold(rev_seq(orig), orig.len() as int));
    }
    r
}

impl FeedSummary {
    /// Summarizes feed XML: the items of [`spec_summarize`], reversed and
    /// then stable-sorted ascending by timestamp, with the feed title
    /// (empty when the feed had none) and the privacy marking.  It
    /// succeeds, and fails, exactly as [`summarize_feed`] does.
    pub fn new(uri: String, xml: &[u8]) -> (r: Result<FeedSummary, SummarizeError>)
        ensures
            match r {
                Result::Ok(fs) => {
                    &&& spec_summarize(xml@) is Summary
                    &&& ({
                        let st = spec_summarize(xml@)->st;
                        &&& fs.uri@ == uri@
                        &&& fs.marked_private == st.private
                        &&& fs.title@ == title_or_empty(
                            match st.feed_title {
                                Option::Some(t) => Option::Some(crate::xml::utf8_decode(t)),
                                Option::None => Option::<Seq<char>>::None,
                            },
                        )
                        &&& (forall|a: int, b: int|
                            0 <= a < b < fs.items@.len() ==> (#[trigger] fs.items@[a]).timestamp
                                <= (#[trigger] fs.items@[b]).timestamp)
                        &&& exists|raw: Seq<SummaryItem>|
                            #[trigger] items_match(st.out, raw) && fs.items@ == sort_fold(
                                rev_seq(raw),
                                raw.len() as int,
                            )
                    })
                },
                Result::Err(e) => match e {
                    SummarizeError::Parse => spec_summarize(xml@) is Malformed,
                    SummarizeError::NotAFeed => spec_summarize(xml@) is NotFeed,
                },
            },
    {
        match summarize_feed(xml) {
            Result::Ok((items, title, private)) => {
                let ghost raw = items@;
                let ghost tv = title_view(title);
                let ordered = order_items(items);
                let title_s = match title {
                    Option::Some(t) => t,
                    Option::None => String::new(),
                };
                let fs = FeedSummary {
                    uri,
                    title: title_s,
                    marked_private: private,
                    items: ordered,
                };
                proof {
                    let st = spec_summarize(xml@)->st;
                    assert(items_match(st.out, raw));
                    assert(fs.title@ == title_or_empty(tv));
                    assert(fs.items@ == sort_fold(rev_seq(raw), raw.len() as int));
                }
                Ok(fs)
            },
            Result::Err(e) => Err(e),
        }
    }
}

} // verus!
