//! The slot-assignment algorithm: maps an append-only notice history onto a
//! rule's slot sequence.
//!
//! The algorithm walks the slots in order.  For each slot it tries items —
//! first any buffered item whose notice time has arrived, then the next
//! published-before-cutoff history row — until one fills the slot, the slot
//! is deliberately left empty (an unpublish learned too late), or the items
//! run out.  An item whose upstream publish time lies at or beyond the
//! current slot keeps its own timestamp ("caught up") and does not consume
//! the slot.
//!
//! The meaning of the algorithm is pinned down by the recursive
//! interpretation [`run`]; the executable functions are proved equal to it.
//! Verus accepts `run`'s `decreases` measure, which is the termination
//! argument: every reschedule of a finite history is finite.

use vstd::prelude::*;

use crate::rule::{lemma_slot_at_increasing, rule_wf, slot_at, Rule, RuleIter};
use crate::CachedEntry;

verus! {

/// One assignment: the item `id` is republished at `timestamp`.
#[derive(Debug)]
pub struct ReplayedItem {
    pub id: String,
    pub timestamp: i64,
}

impl ReplayedItem {
    /// Field-for-field copy.
    pub fn duplicate(&self) -> (r: ReplayedItem)
        ensures
            r.id@ == self.id@,
            r.timestamp == self.timestamp,
    {
        ReplayedItem { id: self.id.clone(), timestamp: self.timestamp }
    }
}

impl PartialEq for ReplayedItem {
    fn eq(&self, other: &ReplayedItem) -> (r: bool) {
        self.id == other.id && self.timestamp == other.timestamp
    }
}

impl vstd::std_specs::cmp::PartialEqSpecImpl for ReplayedItem {
    open spec fn obeys_eq_spec() -> bool {
        true
    }

    open spec fn eq_spec(&self, other: &ReplayedItem) -> bool {
        self.id@ == other.id@ && self.timestamp == other.timestamp
    }
}

/// One recorded assignment, with the branch that made it: `from_slot` is
/// true when the item filled the slot, false when it kept its own upstream
/// timestamp (the caught-up branch).
pub ghost struct Ins {
    pub id: Seq<char>,
    pub at: int,
    pub from_slot: bool,
}

/// Everything the algorithm reads but never changes.
pub ghost struct RCfg {
    pub items: Seq<CachedEntry>,
    pub rule: Rule,
    pub start: int,
    pub cutoff: Option<i64>,
    pub feed_noticed: int,
    pub first: Option<i64>,
    pub last: Option<i64>,
}

/// The moving state: the candidate scan position, the buffer of items whose
/// notice time has not arrived (indices into the history, kept sorted by
/// published), the assignments so far, and the index of the next slot.
pub ghost struct RSt {
    pub cand: int,
    pub delayed: Seq<int>,
    pub ins: Seq<Ins>,
    pub slot_k: nat,
}

pub ghost struct RunOut {
    pub ins: Seq<Ins>,
    pub next: Option<int>,
}

pub ghost enum InnerOut {
    Done { ins: Seq<Ins> },
    NextSlot { st: RSt },
}

// ------------------------------------------------------------------
// Small total helpers.
// ------------------------------------------------------------------

/// `Option` ordering as `chrono` sees it: absent sorts below every instant.
pub open spec fn opt_le(a: Option<i64>, b: Option<i64>) -> bool {
    match a {
        Option::None => true,
        Option::Some(x) => match b {
            Option::None => false,
            Option::Some(y) => x <= y,
        },
    }
}

pub open spec fn opt_gt(a: Option<i64>, b: Option<i64>) -> bool {
    !opt_le(a, b)
}

/// `published <= slot` in the absent-first order.
pub open spec fn pub_le_slot(p: Option<i64>, slot: int) -> bool {
    match p {
        Option::None => true,
        Option::Some(x) => x <= slot,
    }
}

pub open spec fn entry_at(items: Seq<CachedEntry>, i: int) -> CachedEntry
    recommends
        0 <= i < items.len(),
{
    items[i]
}

pub open spec fn noticed_of(items: Seq<CachedEntry>, i: int) -> int {
    if 0 <= i < items.len() {
        items[i].noticed as int
    } else {
        0
    }
}

pub open spec fn published_of(items: Seq<CachedEntry>, i: int) -> Option<i64> {
    if 0 <= i < items.len() {
        items[i].published
    } else {
        Option::None
    }
}

pub open spec fn id_of(items: Seq<CachedEntry>, i: int) -> Seq<char> {
    if 0 <= i < items.len() {
        items[i].id@
    } else {
        Seq::empty()
    }
}

/// Whether a history row takes part in the replay: it must be published, no
/// later than the cutoff, and inside the optional `first`/`last` window.
pub open spec fn is_candidate(cfg: RCfg, e: CachedEntry) -> bool {
    &&& e.published is Some
    &&& (cfg.cutoff is Some ==> e.published.unwrap() <= cfg.cutoff.unwrap())
    &&& (cfg.first is Some ==> e.published.unwrap() >= cfg.first.unwrap())
    &&& (cfg.last is Some ==> e.published.unwrap() <= cfg.last.unwrap())
}

/// Index of the first candidate row at or after `i`.
pub open spec fn next_cand(cfg: RCfg, i: int) -> Option<int>
    decreases cfg.items.len() - i,
{
    if i < 0 || i >= cfg.items.len() {
        Option::None
    } else if is_candidate(cfg, cfg.items[i]) {
        Option::Some(i)
    } else {
        next_cand(cfg, i + 1)
    }
}

/// Position in the buffer of the first item whose notice time has arrived.
pub open spec fn first_eligible(items: Seq<CachedEntry>, delayed: Seq<int>, slot: int) -> Option<
    int,
>
    decreases delayed.len(),
{
    if delayed.len() == 0 {
        Option::None
    } else if noticed_of(items, delayed[0]) <= slot {
        Option::Some(0)
    } else {
        match first_eligible(items, delayed.skip(1), slot) {
            Option::Some(p) => Option::Some(p + 1),
            Option::None => Option::None,
        }
    }
}

/// Where a new item lands in the buffer: before the first buffered item
/// with a strictly later published time, after everything else.
pub open spec fn ins_pos(items: Seq<CachedEntry>, delayed: Seq<int>, p: Option<i64>) -> int
    decreases delayed.len(),
{
    if delayed.len() == 0 {
        0
    } else if opt_gt(published_of(items, delayed[0]), p) {
        0
    } else {
        1 + ins_pos(items, delayed.skip(1), p)
    }
}

pub proof fn lemma_ins_pos(items: Seq<CachedEntry>, delayed: Seq<int>, p: Option<i64>)
    ensures
        0 <= ins_pos(items, delayed, p) <= delayed.len(),
    decreases delayed.len(),
{
    if delayed.len() > 0 && !opt_gt(published_of(items, delayed[0]), p) {
        lemma_ins_pos(items, delayed.skip(1), p);
    }
}

/// How many of the first `i` rows carry this id.
pub open spec fn count_id_upto(items: Seq<CachedEntry>, id: Seq<char>, i: int) -> nat
    decreases i,
{
    if i <= 0 || i > items.len() {
        0
    } else {
        count_id_upto(items, id, i - 1) + if items[i - 1].id@ == id {
            1nat
        } else {
            0nat
        }
    }
}

/// The most recently noticed row for this id among the first `i` rows;
/// ties on `noticed` go to the later row, matching the storage order
/// tie-break.
pub open spec fn latest_upto(items: Seq<CachedEntry>, id: Seq<char>, i: int) -> Option<CachedEntry>
    decreases i,
{
    if i <= 0 || i > items.len() {
        Option::None
    } else {
        let prev = latest_upto(items, id, i - 1);
        if items[i - 1].id@ == id {
            match prev {
                Option::None => Option::Some(items[i - 1]),
                Option::Some(p) => if items[i - 1].noticed >= p.noticed {
                    Option::Some(items[i - 1])
                } else {
                    prev
                },
            }
        } else {
            prev
        }
    }
}

/// Whether some assignment for this id has already been recorded.
pub open spec fn inserted(ins: Seq<Ins>, id: Seq<char>) -> bool {
    exists|j: int| 0 <= j < ins.len() && ins[j].id == id
}

/// The id was moved to a later publish time by a row noticed no later than
/// this slot (and no earlier than the row in hand): the row in hand must
/// not fill the slot.
pub open spec fn rescheduled_before(items: Seq<CachedEntry>, idx: int, slot: int) -> bool {
    count_id_upto(items, id_of(items, idx), items.len() as int) > 1 && exists|j: int|
        0 <= j < items.len() && items[j].id@ == id_of(items, idx) && items[j].noticed <= slot
            && items[j].noticed >= noticed_of(items, idx) && opt_gt(
            items[j].published,
            published_of(items, idx),
        )
}

pub ghost enum Unpub {
    BeforeSlot,
    AfterSlot,
    Never,
}

/// Whether the id's most recent notice says it was unpublished, and whether
/// that was learned before or after this slot was filled.
pub open spec fn unpub_status(items: Seq<CachedEntry>, id: Seq<char>, slot: int) -> Unpub {
    match latest_upto(items, id, items.len() as int) {
        Option::None => Unpub::Never,
        Option::Some(l) => if l.published is None {
            if l.noticed > slot {
                Unpub::AfterSlot
            } else {
                Unpub::BeforeSlot
            }
        } else {
            Unpub::Never
        },
    }
}

// ------------------------------------------------------------------
// Measures.
// ------------------------------------------------------------------

pub open spec fn cand_rem(cfg: RCfg, st: RSt) -> nat {
    if st.cand >= cfg.items.len() || st.cand < 0 {
        0
    } else {
        (cfg.items.len() - st.cand) as nat
    }
}

/// Inner measure: candidates count double so that moving one candidate into
/// the buffer still shrinks the measure.
pub open spec fn inner_m(cfg: RCfg, st: RSt) -> nat {
    2 * cand_rem(cfg, st) + st.delayed.len()
}

/// Greatest notice time in the buffer.
pub open spec fn dmax(items: Seq<CachedEntry>, delayed: Seq<int>) -> int
    decreases delayed.len(),
{
    if delayed.len() == 0 {
        0
    } else if delayed.len() == 1 {
        noticed_of(items, delayed[0])
    } else {
        let rest = dmax(items, delayed.skip(1));
        let h = noticed_of(items, delayed[0]);
        if h >= rest {
            h
        } else {
            rest
        }
    }
}

/// Outer measure: while the buffer is only waiting for its notice times,
/// each later slot closes the gap.
pub open spec fn wait_m(cfg: RCfg, st: RSt) -> nat {
    let slot = slot_at(cfg.rule, st.slot_k);
    let dm = dmax(cfg.items, st.delayed);
    if st.delayed.len() > 0 && dm + 1 > slot {
        (dm + 1 - slot) as nat
    } else {
        0
    }
}

// ------------------------------------------------------------------
// The interpretation.
// ------------------------------------------------------------------

/// The next item to try for this slot, with the state after removing it:
/// an eligible buffered item first, otherwise the next candidate.
pub open spec fn pick(cfg: RCfg, st: RSt, slot: int) -> Option<(int, RSt)> {
    match first_eligible(cfg.items, st.delayed, slot) {
        Option::Some(d) => Option::Some(
            (st.delayed[d], RSt { delayed: st.delayed.remove(d), ..st }),
        ),
        Option::None => match next_cand(cfg, st.cand) {
            Option::Some(j) => Option::Some((j, RSt { cand: j + 1, ..st })),
            Option::None => Option::None,
        },
    }
}

pub proof fn lemma_first_eligible(items: Seq<CachedEntry>, delayed: Seq<int>, slot: int)
    ensures
        match first_eligible(items, delayed, slot) {
            Option::Some(d) => 0 <= d < delayed.len() && noticed_of(items, delayed[d]) <= slot,
            Option::None => forall|d: int|
                0 <= d < delayed.len() ==> noticed_of(items, #[trigger] delayed[d]) > slot,
        },
    decreases delayed.len(),
{
    if delayed.len() > 0 && noticed_of(items, delayed[0]) > slot {
        lemma_first_eligible(items, delayed.skip(1), slot);
        assert(forall|d: int|
            1 <= d < delayed.len() ==> delayed.skip(1)[d - 1] == #[trigger] delayed[d]);
    }
}

pub proof fn lemma_next_cand(cfg: RCfg, i: int)
    ensures
        match next_cand(cfg, i) {
            Option::Some(j) => i <= j < cfg.items.len() && is_candidate(cfg, cfg.items[j]),
            Option::None => true,
        },
    decreases cfg.items.len() - i,
{
    if 0 <= i < cfg.items.len() && !is_candidate(cfg, cfg.items[i]) {
        lemma_next_cand(cfg, i + 1);
    }
}

/// Removing the picked item shrinks the measure; buffering it afterwards
/// still leaves the measure below where it started, because a buffered item
/// always comes from the candidate side (an eligible buffered item has
/// `noticed <= slot` and the buffering branch needs `noticed > slot`).
pub proof fn lemma_pick(cfg: RCfg, st: RSt, slot: int)
    ensures
        match pick(cfg, st, slot) {
            Option::Some(p) => {
                &&& inner_m(cfg, p.1) < inner_m(cfg, st)
                &&& p.1.slot_k == st.slot_k
                &&& p.1.ins == st.ins
                &&& (noticed_of(cfg.items, p.0) > slot ==> inner_m(cfg, p.1) + 1 < inner_m(
                    cfg,
                    st,
                ))
            },
            Option::None => true,
        },
{
    lemma_first_eligible(cfg.items, st.delayed, slot);
    lemma_next_cand(cfg, st.cand);
}

/// One slot's inner loop: try items until the slot is filled, deliberately
/// left empty, or nothing is left.
pub open spec fn run_inner(cfg: RCfg, st: RSt, slot: int) -> InnerOut
    decreases inner_m(cfg, st),
{
    match pick(cfg, st, slot) {
        Option::None => {
            if st.delayed.len() == 0 {
                InnerOut::Done { ins: st.ins }
            } else {
                InnerOut::NextSlot { st }
            }
        },
        Option::Some(p) => {
            proof {
                lemma_pick(cfg, st, slot);
            }
            let idx = p.0;
            let st1 = p.1;
            let eid = id_of(cfg.items, idx);
            let enot = noticed_of(cfg.items, idx);
            let epub = published_of(cfg.items, idx);
            if inserted(st1.ins, eid) {
                // Already replayed under another row: try the next item.
                run_inner(cfg, st1, slot)
            } else if pub_le_slot(epub, slot) {
                if enot > slot && cfg.start >= cfg.feed_noticed {
                    // Published retroactively after this slot was replayed:
                    // buffer until its notice time arrives.
                    proof {
                        lemma_ins_pos(cfg.items, st1.delayed, epub);
                    }
                    let pos = ins_pos(cfg.items, st1.delayed, epub);
                    let st2 = RSt { delayed: st1.delayed.insert(pos, idx), ..st1 };
                    run_inner(cfg, st2, slot)
                } else if rescheduled_before(cfg.items, idx, slot) {
                    // Moved to a later time before this slot was reached.
                    run_inner(cfg, st1, slot)
                } else {
                    match unpub_status(cfg.items, eid, slot) {
                        Unpub::BeforeSlot => run_inner(cfg, st1, slot),
                        Unpub::AfterSlot => InnerOut::NextSlot { st: st1 },
                        Unpub::Never => InnerOut::NextSlot {
                            st: RSt {
                                ins: st1.ins.push(Ins { id: eid, at: slot, from_slot: true }),
                                ..st1
                            },
                        },
                    }
                }
            } else {
                // Caught up: keep the upstream publish time, do not consume
                // the slot.
                let at = epub.unwrap() as int;
                let st2 = RSt {
                    ins: st1.ins.push(Ins { id: eid, at, from_slot: false }),
                    ..st1
                };
                run_inner(cfg, st2, slot)
            }
        },
    }
}

/// What the inner loop can do to the state: it never grows the measure, and
/// when it hands the same measure back it has changed nothing and is only
/// waiting for buffered notice times.
pub proof fn lemma_run_inner_frame(cfg: RCfg, st: RSt, slot: int)
    ensures
        match run_inner(cfg, st, slot) {
            InnerOut::Done { .. } => true,
            InnerOut::NextSlot { st: st2 } => {
                &&& inner_m(cfg, st2) <= inner_m(cfg, st)
                &&& st2.slot_k == st.slot_k
                &&& (inner_m(cfg, st2) == inner_m(cfg, st) ==> st2 == st && st.delayed.len() > 0
                    && (forall|d: int|
                    0 <= d < st.delayed.len() ==> noticed_of(cfg.items, #[trigger] st.delayed[d])
                        > slot))
            },
        },
    decreases inner_m(cfg, st),
{
    lemma_pick(cfg, st, slot);
    match pick(cfg, st, slot) {
        Option::None => {
            lemma_first_eligible(cfg.items, st.delayed, slot);
        },
        Option::Some(p) => {
            let st1 = p.1;
            let eid = id_of(cfg.items, p.0);
            let enot = noticed_of(cfg.items, p.0);
            let epub = published_of(cfg.items, p.0);
            if inserted(st1.ins, eid) {
                lemma_run_inner_frame(cfg, st1, slot);
            } else if pub_le_slot(epub, slot) {
                if enot > slot && cfg.start >= cfg.feed_noticed {
                    let pos = ins_pos(cfg.items, st1.delayed, epub);
                    lemma_ins_pos(cfg.items, st1.delayed, epub);
                    lemma_run_inner_frame(
                        cfg,
                        RSt { delayed: st1.delayed.insert(pos, p.0), ..st1 },
                        slot,
                    );
                } else if rescheduled_before(cfg.items, p.0, slot) {
                    lemma_run_inner_frame(cfg, st1, slot);
                } else {
                    match unpub_status(cfg.items, eid, slot) {
                        Unpub::BeforeSlot => {
                            lemma_run_inner_frame(cfg, st1, slot);
                        },
                        _ => {},
                    }
                }
            } else {
                let at = epub.unwrap() as int;
                lemma_run_inner_frame(
                    cfg,
                    RSt { ins: st1.ins.push(Ins { id: eid, at, from_slot: false }), ..st1 },
                    slot,
                );
            }
        },
    }
}

pub proof fn lemma_dmax(items: Seq<CachedEntry>, delayed: Seq<int>)
    requires
        delayed.len() > 0,
    ensures
        exists|d: int| 0 <= d < delayed.len() && noticed_of(items, #[trigger] delayed[d]) == dmax(
            items,
            delayed,
        ),
        forall|d: int|
            0 <= d < delayed.len() ==> noticed_of(items, #[trigger] delayed[d]) <= dmax(
                items,
                delayed,
            ),
    decreases delayed.len(),
{
    if delayed.len() > 1 {
        lemma_dmax(items, delayed.skip(1));
        assert(forall|d: int|
            1 <= d < delayed.len() ==> delayed.skip(1)[d - 1] == #[trigger] delayed[d]);
        if noticed_of(items, delayed[0]) >= dmax(items, delayed.skip(1)) {
            assert(noticed_of(items, delayed[0]) == dmax(items, delayed));
        } else {
            let d0 = choose|d: int|
                0 <= d < delayed.skip(1).len() && noticed_of(items, #[trigger] delayed.skip(1)[d])
                    == dmax(items, delayed.skip(1));
            assert(noticed_of(items, delayed[d0 + 1]) == dmax(items, delayed));
        }
    } else {
        assert(noticed_of(items, delayed[0]) == dmax(items, delayed));
    }
}

/// The whole algorithm from slot `st.slot_k` on.  Stops with the first slot
/// at or past the cutoff (returned as the next unfilled slot), or with
/// `None` when the items ran out first.
pub open spec fn run(cfg: RCfg, st: RSt) -> RunOut
    decreases inner_m(cfg, st), wait_m(cfg, st),
        when rule_wf(cfg.rule)
{
    let slot = slot_at(cfg.rule, st.slot_k);
    if cfg.cutoff is Some && slot >= cfg.cutoff.unwrap() {
        RunOut { ins: st.ins, next: Option::Some(slot) }
    } else {
        match run_inner(cfg, st, slot) {
            InnerOut::Done { ins } => RunOut { ins, next: Option::None },
            InnerOut::NextSlot { st: st2 } => {
                proof {
                    lemma_run_inner_frame(cfg, st, slot);
                    lemma_slot_at_increasing(cfg.rule, st.slot_k);
                    if inner_m(cfg, st2) == inner_m(cfg, st) {
                        lemma_dmax(cfg.items, st.delayed);
                    }
                }
                run(cfg, RSt { slot_k: st.slot_k + 1, ..st2 })
            },
        }
    }
}


// ------------------------------------------------------------------
// Executable mirrors of the helpers.
// ------------------------------------------------------------------

pub open spec fn to_ints(s: Seq<usize>) -> Seq<int> {
    s.map_values(|u: usize| u as int)
}

/// An assignment as the executable code records it, with the branch flag
/// that the interpretation tracks.
struct Rec {
    id: String,
    at: i64,
    from_slot: bool,
}

pub open spec fn rec_ins(id: Seq<char>, at: int, from_slot: bool) -> Ins {
    Ins { id, at, from_slot }
}

spec fn recs_view(s: Seq<Rec>) -> Seq<Ins> {
    s.map_values(|r: Rec| rec_ins(r.id@, r.at as int, r.from_slot))
}

/// Stronger characterizations of the recursive helpers, for the scanning
/// loops below.
proof fn lemma_first_eligible_least(items: Seq<CachedEntry>, delayed: Seq<int>, slot: int)
    ensures
        match first_eligible(items, delayed, slot) {
            Option::Some(d) => 0 <= d < delayed.len() && noticed_of(items, delayed[d]) <= slot
                && forall|q: int|
                0 <= q < d ==> noticed_of(items, #[trigger] delayed[q]) > slot,
            Option::None => forall|d: int|
                0 <= d < delayed.len() ==> noticed_of(items, #[trigger] delayed[d]) > slot,
        },
    decreases delayed.len(),
{
    if delayed.len() > 0 && noticed_of(items, delayed[0]) > slot {
        lemma_first_eligible_least(items, delayed.skip(1), slot);
        assert(forall|d: int|
            1 <= d < delayed.len() ==> delayed.skip(1)[d - 1] == #[trigger] delayed[d]);
    }
}

proof fn lemma_next_cand_least(cfg: RCfg, i: int)
    requires
        i >= 0,
    ensures
        match next_cand(cfg, i) {
            Option::Some(j) => i <= j < cfg.items.len() && is_candidate(cfg, cfg.items[j])
                && forall|q: int| i <= q < j ==> !is_candidate(cfg, #[trigger] cfg.items[q]),
            Option::None => forall|q: int|
                i <= q < cfg.items.len() ==> !is_candidate(cfg, #[trigger] cfg.items[q]),
        },
    decreases cfg.items.len() - i,
{
    if 0 <= i < cfg.items.len() && !is_candidate(cfg, cfg.items[i]) {
        lemma_next_cand_least(cfg, i + 1);
    }
}

proof fn lemma_ins_pos_least(items: Seq<CachedEntry>, delayed: Seq<int>, p: Option<i64>)
    ensures
        0 <= ins_pos(items, delayed, p) <= delayed.len(),
        ins_pos(items, delayed, p) < delayed.len() ==> opt_gt(
            published_of(items, delayed[ins_pos(items, delayed, p)]),
            p,
        ),
        forall|q: int|
            0 <= q < ins_pos(items, delayed, p) ==> !opt_gt(
                published_of(items, #[trigger] delayed[q]),
                p,
            ),
    decreases delayed.len(),
{
    if delayed.len() > 0 && !opt_gt(published_of(items, delayed[0]), p) {
        lemma_ins_pos_least(items, delayed.skip(1), p);
        assert(forall|d: int|
            1 <= d < delayed.len() ==> delayed.skip(1)[d - 1] == #[trigger] delayed[d]);
    }
}

/// First buffered item whose notice time has arrived.
fn find_eligible(items: &Vec<CachedEntry>, delayed: &Vec<usize>, slot: i64) -> (r: Option<usize>)
    requires
        forall|d: int| 0 <= d < delayed@.len() ==> (#[trigger] delayed@[d]) < items@.len(),
    ensures
        match r {
            Option::Some(d) => Option::Some(d as int) == first_eligible(
                items@,
                to_ints(delayed@),
                slot as int,
            ),
            Option::None => first_eligible(items@, to_ints(delayed@), slot as int) is None,
        },
{
    proof {
        lemma_first_eligible_least(items@, to_ints(delayed@), slot as int);
    }
    let n = delayed.len();
    let mut d: usize = 0;
    while d < n
        invariant
            0 <= d <= n,
            n == delayed@.len(),
            forall|q: int| 0 <= q < delayed@.len() ==> (#[trigger] delayed@[q]) < items@.len(),
            forall|q: int|
                0 <= q < d ==> noticed_of(items@, #[trigger] to_ints(delayed@)[q]) > slot,
        decreases n - d,
    {
        let idx = delayed[d];
        proof {
            assert(to_ints(delayed@)[d as int] == delayed@[d as int] as int);
        }
        if items[idx].noticed <= slot {
            proof {
                assert(noticed_of(items@, to_ints(delayed@)[d as int]) <= slot as int);
                lemma_first_eligible_least(items@, to_ints(delayed@), slot as int);
            }
            return Some(d);
        }
        d = d + 1;
    }
    None
}

/// First candidate row at or after `cand`.
fn next_candidate(
    items: &Vec<CachedEntry>,
    cand: usize,
    cutoff: Option<i64>,
    first: Option<i64>,
    last: Option<i64>,
    Ghost(cfg): Ghost<RCfg>,
) -> (r: Option<usize>)
    requires
        cfg.items == items@,
        cfg.cutoff == cutoff,
        cfg.first == first,
        cfg.last == last,
    ensures
        match r {
            Option::Some(j) => Option::Some(j as int) == next_cand(cfg, cand as int) && j
                < items@.len(),
            Option::None => next_cand(cfg, cand as int) is None,
        },
{
    proof {
        lemma_next_cand_least(cfg, cand as int);
    }
    let n = items.len();
    let mut i = cand;
    while i < n
        invariant
            cand <= i,
            n == items@.len(),
            cfg.items == items@,
            cfg.cutoff == cutoff,
            cfg.first == first,
            cfg.last == last,
            forall|q: int| cand <= q < i ==> !is_candidate(cfg, #[trigger] cfg.items[q]),
        decreases n - i,
    {
        let e = &items[i];
        let ok = match e.published {
            Option::Some(p) => {
                let c_ok = match cutoff {
                    Option::Some(c) => p <= c,
                    Option::None => true,
                };
                let f_ok = match first {
                    Option::Some(f) => p >= f,
                    Option::None => true,
                };
                let l_ok = match last {
                    Option::Some(l) => p <= l,
                    Option::None => true,
                };
                c_ok && f_ok && l_ok
            },
            Option::None => false,
        };
        if ok {
            proof {
                lemma_next_cand_least(cfg, cand as int);
            }
            return Some(i);
        }
        i = i + 1;
    }
    None
}

/// Where to put a newly buffered item so the buffer stays sorted by
/// published time (later rows after equal keys).
fn find_ins_pos(items: &Vec<CachedEntry>, delayed: &Vec<usize>, p: Option<i64>) -> (r: usize)
    requires
        forall|d: int| 0 <= d < delayed@.len() ==> (#[trigger] delayed@[d]) < items@.len(),
    ensures
        r as int == ins_pos(items@, to_ints(delayed@), p),
        r <= delayed@.len(),
{
    proof {
        lemma_ins_pos_least(items@, to_ints(delayed@), p);
    }
    let n = delayed.len();
    let mut q: usize = 0;
    while q < n
        invariant
            0 <= q <= n,
            n == delayed@.len(),
            forall|d: int| 0 <= d < delayed@.len() ==> (#[trigger] delayed@[d]) < items@.len(),
            forall|d: int|
                0 <= d < q ==> !opt_gt(published_of(items@, #[trigger] to_ints(delayed@)[d]), p),
        decreases n - q,
    {
        let idx = delayed[q];
        proof {
            assert(to_ints(delayed@)[q as int] == delayed@[q as int] as int);
        }
        let gt = match (items[idx].published, p) {
            (Option::Some(x), Option::Some(y)) => x > y,
            (Option::Some(_), Option::None) => true,
            (Option::None, _) => false,
        };
        if gt {
            proof {
                assert(opt_gt(published_of(items@, to_ints(delayed@)[q as int]), p));
                lemma_ins_pos_least(items@, to_ints(delayed@), p);
            }
            return q;
        }
        q = q + 1;
    }
    proof {
        lemma_ins_pos_least(items@, to_ints(delayed@), p);
    }
    n
}

/// Whether an assignment for this id was already recorded.
fn contains_id(recs: &Vec<Rec>, id: &String) -> (r: bool)
    ensures
        r == inserted(recs_view(recs@), id@),
{
    let n = recs.len();
    let mut i: usize = 0;
    while i < n
        invariant
            0 <= i <= n,
            n == recs@.len(),
            forall|j: int| 0 <= j < i ==> recs_view(recs@)[j].id != id@,
        decreases n - i,
    {
        proof {
            assert(recs_view(recs@)[i as int] == rec_ins(
                recs@[i as int].id@,
                recs@[i as int].at as int,
                recs@[i as int].from_slot,
            ));
        }
        if recs[i].id == *id {
            return true;
        }
        i = i + 1;
    }
    false
}

/// The rescheduled-before check over the whole history.
fn resched_before(items: &Vec<CachedEntry>, idx: usize, slot: i64) -> (r: bool)
    requires
        idx < items@.len(),
    ensures
        r == rescheduled_before(items@, idx as int, slot as int),
{
    let n = items.len();
    let e_noticed = items[idx].noticed;
    let e_published = items[idx].published;
    let mut cnt: u64 = 0;
    let mut any: bool = false;
    let mut i: usize = 0;
    while i < n
        invariant
            0 <= i <= n,
            n == items@.len(),
            idx < items@.len(),
            e_noticed == items@[idx as int].noticed,
            e_published == items@[idx as int].published,
            cnt <= i,
            cnt == count_id_upto(items@, id_of(items@, idx as int), i as int),
            any == exists|j: int|
                0 <= j < i && items@[j].id@ == id_of(items@, idx as int) && items@[j].noticed
                    <= slot && items@[j].noticed >= e_noticed && opt_gt(
                    items@[j].published,
                    e_published,
                ),
        decreases n - i,
    {
        let row = &items[i];
        if row.id == items[idx].id {
            cnt = cnt + 1;
            if row.noticed <= slot && row.noticed >= e_noticed {
                let gt = match (row.published, e_published) {
                    (Option::Some(x), Option::Some(y)) => x > y,
                    (Option::Some(_), Option::None) => true,
                    (Option::None, _) => false,
                };
                if gt {
                    proof {
                        assert(items@[i as int].id@ == id_of(items@, idx as int));
                    }
                    any = true;
                }
            }
        }
        i = i + 1;
    }
    cnt > 1 && any
}

/// The finally-unpublished check: 0 never, 1 noticed before the slot,
/// 2 noticed after the slot.
fn unpub_state(items: &Vec<CachedEntry>, idx: usize, slot: i64) -> (r: u8)
    requires
        idx < items@.len(),
    ensures
        r == 0 <==> unpub_status(items@, id_of(items@, idx as int), slot as int) is Never,
        r == 1 <==> unpub_status(items@, id_of(items@, idx as int), slot as int) is BeforeSlot,
        r == 2 <==> unpub_status(items@, id_of(items@, idx as int), slot as int) is AfterSlot,
{
    let ghost id = id_of(items@, idx as int);
    let n = items.len();
    let mut found: bool = false;
    let mut best: usize = 0;
    let mut i: usize = 0;
    while i < n
        invariant
            0 <= i <= n,
            n == items@.len(),
            idx < items@.len(),
            id == id_of(items@, idx as int),
            !found ==> latest_upto(items@, id, i as int) is None,
            found ==> best < i && latest_upto(items@, id, i as int) == Option::Some(
                items@[best as int],
            ),
        decreases n - i,
    {
        let row = &items[i];
        if row.id == items[idx].id {
            proof {
                assert(items@[i as int].id@ == id);
            }
            if !found {
                found = true;
                best = i;
            } else if row.noticed >= items[best].noticed {
                best = i;
            }
        }
        i = i + 1;
    }
    if !found {
        return 0;
    }
    let l = &items[best];
    match l.published {
        Option::Some(_) => 0,
        Option::None => {
            if l.noticed > slot {
                2
            } else {
                1
            }
        },
    }
}

// ------------------------------------------------------------------
// The executable algorithm.
// ------------------------------------------------------------------

proof fn lemma_to_ints_remove(s: Seq<usize>, d: int)
    requires
        0 <= d < s.len(),
    ensures
        to_ints(s.remove(d)) == to_ints(s).remove(d),
{
    assert(to_ints(s.remove(d)) =~= to_ints(s).remove(d));
}

proof fn lemma_to_ints_insert(s: Seq<usize>, p: int, v: usize)
    requires
        0 <= p <= s.len(),
    ensures
        to_ints(s.insert(p, v)) == to_ints(s).insert(p, v as int),
{
    assert(to_ints(s.insert(p, v)) =~= to_ints(s).insert(p, v as int));
}

proof fn lemma_recs_view_push(s: Seq<Rec>, id: Seq<char>, at: i64, from_slot: bool, r: Rec)
    requires
        r.id@ == id,
        r.at == at,
        r.from_slot == from_slot,
    ensures
        recs_view(s.push(r)) == recs_view(s).push(rec_ins(id, at as int, from_slot)),
{
    assert(recs_view(s.push(r)) =~= recs_view(s).push(rec_ins(id, at as int, from_slot)));
}

struct InnerRes {
    done: bool,
    cand: usize,
    delayed: Vec<usize>,
    recs: Vec<Rec>,
}

/// One slot's inner loop, executable; equal to [`run_inner`].
fn inner_exec(
    items: &Vec<CachedEntry>,
    slot: i64,
    start: i64,
    feed_noticed: i64,
    cutoff: Option<i64>,
    first: Option<i64>,
    last: Option<i64>,
    cand: usize,
    delayed: Vec<usize>,
    recs: Vec<Rec>,
    Ghost(cfg): Ghost<RCfg>,
    Ghost(k0): Ghost<nat>,
) -> (r: InnerRes)
    requires
        cfg.items == items@,
        cfg.start == start as int,
        cfg.feed_noticed == feed_noticed as int,
        cfg.cutoff == cutoff,
        cfg.first == first,
        cfg.last == last,
        cand <= items@.len(),
        forall|d: int| 0 <= d < delayed@.len() ==> (#[trigger] delayed@[d]) < items@.len(),
    ensures
        ({
            let st0 = RSt {
                cand: cand as int,
                delayed: to_ints(delayed@),
                ins: recs_view(recs@),
                slot_k: k0,
            };
            match run_inner(cfg, st0, slot as int) {
                InnerOut::Done { ins } => r.done && recs_view(r.recs@) == ins,
                InnerOut::NextSlot { st } => !r.done && st == (RSt {
                    cand: r.cand as int,
                    delayed: to_ints(r.delayed@),
                    ins: recs_view(r.recs@),
                    slot_k: k0,
                }) && r.cand <= items@.len() && forall|d: int|
                    0 <= d < r.delayed@.len() ==> (#[trigger] r.delayed@[d]) < items@.len(),
            }
        }),
    decreases inner_m(
        cfg,
        RSt { cand: cand as int, delayed: to_ints(delayed@), ins: recs_view(recs@), slot_k: k0 },
    ),
{
    let ghost st0 = RSt {
        cand: cand as int,
        delayed: to_ints(delayed@),
        ins: recs_view(recs@),
        slot_k: k0,
    };
    proof {
        lemma_pick(cfg, st0, slot as int);
    }
    let mut delayed = delayed;
    let mut recs = recs;
    let n_items = items.len();
    let idx: usize;
    let cand2: usize;
    match find_eligible(items, &delayed, slot) {
        Option::Some(d) => {
            proof {
                lemma_first_eligible_least(items@, to_ints(delayed@), slot as int);
            }
            idx = delayed[d];
            proof {
                lemma_to_ints_remove(delayed@, d as int);
            }
            delayed.remove(d);
            cand2 = cand;
        },
        Option::None => {
            match next_candidate(items, cand, cutoff, first, last, Ghost(cfg)) {
                Option::Some(j) => {
                    idx = j;
                    cand2 = j + 1;
                },
                Option::None => {
                    let done = delayed.len() == 0;
                    return InnerRes { done, cand, delayed, recs };
                },
            }
        },
    }
    let ghost st1 = RSt {
        cand: cand2 as int,
        delayed: to_ints(delayed@),
        ins: recs_view(recs@),
        slot_k: k0,
    };
    proof {
        assert(pick(cfg, st0, slot as int) == Option::Some((idx as int, st1)));
    }
    let already = contains_id(&recs, &items[idx].id);
    if already {
        return inner_exec(
            items, slot, start, feed_noticed, cutoff, first, last, cand2, delayed, recs,
            Ghost(cfg), Ghost(k0),
        );
    }
    let e_pub = items[idx].published;
    let e_noticed = items[idx].noticed;
    let is_le = match e_pub {
        Option::None => true,
        Option::Some(p) => p <= slot,
    };
    if is_le {
        if e_noticed > slot && start >= feed_noticed {
            let pos = find_ins_pos(items, &delayed, e_pub);
            proof {
                lemma_ins_pos(cfg.items, st1.delayed, e_pub);
                lemma_to_ints_insert(delayed@, pos as int, idx);
            }
            delayed.insert(pos, idx);
            inner_exec(
                items, slot, start, feed_noticed, cutoff, first, last, cand2, delayed, recs,
                Ghost(cfg), Ghost(k0),
            )
        } else if resched_before(items, idx, slot) {
            inner_exec(
                items, slot, start, feed_noticed, cutoff, first, last, cand2, delayed, recs,
                Ghost(cfg), Ghost(k0),
            )
        } else {
            let u = unpub_state(items, idx, slot);
            if u == 1 {
                inner_exec(
                    items, slot, start, feed_noticed, cutoff, first, last, cand2, delayed, recs,
                    Ghost(cfg), Ghost(k0),
                )
            } else if u == 2 {
                InnerRes { done: false, cand: cand2, delayed, recs }
            } else {
                let rec = Rec { id: items[idx].id.clone(), at: slot, from_slot: true };
                proof {
                    lemma_recs_view_push(recs@, items@[idx as int].id@, slot, true, rec);
                }
                recs.push(rec);
                InnerRes { done: false, cand: cand2, delayed, recs }
            }
        }
    } else {
        let p = match e_pub {
            Option::Some(p) => p,
            Option::None => slot,
        };
        let rec = Rec { id: items[idx].id.clone(), at: p, from_slot: false };
        proof {
            lemma_recs_view_push(recs@, items@[idx as int].id@, p, false, rec);
        }
        recs.push(rec);
        inner_exec(
            items, slot, start, feed_noticed, cutoff, first, last, cand2, delayed, recs,
            Ghost(cfg), Ghost(k0),
        )
    }
}

/// The whole algorithm from slot `k0` on, executable; equal to [`run`].
fn run_exec(
    items: &Vec<CachedEntry>,
    it: &mut RuleIter,
    start: i64,
    feed_noticed: i64,
    cutoff: Option<i64>,
    first: Option<i64>,
    last: Option<i64>,
    cand: usize,
    delayed: Vec<usize>,
    recs: Vec<Rec>,
    Ghost(cfg): Ghost<RCfg>,
    Ghost(k0): Ghost<nat>,
) -> (r: (Vec<Rec>, Option<i64>))
    requires
        old(it).wf(),
        old(it).rule_v() == cfg.rule,
        old(it).count() == k0,
        rule_wf(cfg.rule),
        cfg.items == items@,
        cfg.start == start as int,
        cfg.feed_noticed == feed_noticed as int,
        cfg.cutoff == cutoff,
        cfg.first == first,
        cfg.last == last,
        cand <= items@.len(),
        forall|d: int| 0 <= d < delayed@.len() ==> (#[trigger] delayed@[d]) < items@.len(),
    ensures
        ({
            let out = run(
                cfg,
                RSt {
                    cand: cand as int,
                    delayed: to_ints(delayed@),
                    ins: recs_view(recs@),
                    slot_k: k0,
                },
            );
            recs_view(r.0@) == out.ins && match (r.1, out.next) {
                (Option::Some(a), Option::Some(b)) => a as int == b,
                (Option::None, Option::None) => true,
                _ => false,
            }
        }),
    decreases inner_m(
        cfg,
        RSt { cand: cand as int, delayed: to_ints(delayed@), ins: recs_view(recs@), slot_k: k0 },
    ), wait_m(
        cfg,
        RSt { cand: cand as int, delayed: to_ints(delayed@), ins: recs_view(recs@), slot_k: k0 },
    ),
{
    let ghost st0 = RSt {
        cand: cand as int,
        delayed: to_ints(delayed@),
        ins: recs_view(recs@),
        slot_k: k0,
    };
    let slot = it.next();
    let cut_hit = match cutoff {
        Option::Some(c) => slot >= c,
        Option::None => false,
    };
    if cut_hit {
        return (recs, Some(slot));
    }
    let res = inner_exec(
        items, slot, start, feed_noticed, cutoff, first, last, cand, delayed, recs, Ghost(cfg),
        Ghost(k0),
    );
    if res.done {
        return (res.recs, None);
    }
    proof {
        lemma_run_inner_frame(cfg, st0, slot as int);
        lemma_slot_at_increasing(cfg.rule, k0);
        let st2 = RSt {
            cand: res.cand as int,
            delayed: to_ints(res.delayed@),
            ins: recs_view(res.recs@),
            slot_k: k0,
        };
        if inner_m(cfg, st2) == inner_m(cfg, st0) {
            lemma_dmax(cfg.items, st0.delayed);
        }
    }
    run_exec(
        items, it, start, feed_noticed, cutoff, first, last, res.cand, res.delayed, res.recs,
        Ghost(cfg), Ghost(k0 + 1),
    )
}

// ------------------------------------------------------------------
// The public interface.
// ------------------------------------------------------------------

/// The reschedule map: item id to republish instant, at most one entry per
/// id, in the order the algorithm recorded them.
#[derive(Debug)]
pub struct Reschedule {
    pub entries: Vec<ReplayedItem>,
}

impl Reschedule {
    pub open spec fn contains_spec(self, id: Seq<char>) -> bool {
        exists|j: int| 0 <= j < self.entries@.len() && self.entries@[j].id@ == id
    }

    pub fn len(&self) -> (r: usize)
        ensures
            r == self.entries@.len(),
    {
        self.entries.len()
    }

    pub fn is_empty(&self) -> (r: bool)
        ensures
            r == (self.entries@.len() == 0),
    {
        self.entries.len() == 0
    }

    /// The rescheduled instant for an id, if the map holds one.
    pub fn get(&self, id: &String) -> (r: Option<i64>)
        ensures
            match r {
                Option::Some(t) => exists|j: int|
                    0 <= j < self.entries@.len() && self.entries@[j].id@ == id@
                        && self.entries@[j].timestamp == t,
                Option::None => !self.contains_spec(id@),
            },
    {
        let n = self.entries.len();
        let mut i: usize = 0;
        while i < n
            invariant
                0 <= i <= n,
                n == self.entries@.len(),
                forall|j: int| 0 <= j < i ==> (#[trigger] self.entries@[j]).id@ != id@,
            decreases n - i,
        {
            if self.entries[i].id == *id {
                return Some(self.entries[i].timestamp);
            }
            i = i + 1;
        }
        None
    }
}

/// The interpretation of a whole reschedule: the recorded assignments and
/// the next unfilled slot, starting from the first slot with an empty
/// buffer.  An absent `feed_noticed` defaults to `start`.
pub open spec fn reschedule_run(
    items: Seq<CachedEntry>,
    rule: Rule,
    start: i64,
    cutoff: Option<i64>,
    feed_noticed: Option<i64>,
    first: Option<i64>,
    last: Option<i64>,
) -> RunOut {
    let fnot = match feed_noticed {
        Option::Some(f) => f as int,
        Option::None => start as int,
    };
    let cfg = RCfg {
        items,
        rule,
        start: start as int,
        cutoff,
        feed_noticed: fnot,
        first,
        last,
    };
    run(cfg, RSt { cand: 0, delayed: Seq::empty(), ins: Seq::empty(), slot_k: 0 })
}

/// Maps the cached history of one feed onto the rule's slots.
///
/// Returns the reschedule map and the first slot that was not filled (used
/// for cache expiry); the latter is absent when the items ran out before
/// the cutoff did.  The result is exactly [`reschedule_run`] with the
/// branch flags dropped.
pub fn reschedule_feed(
    items: &Vec<CachedEntry>,
    rule: &Rule,
    start: i64,
    cutoff: Option<i64>,
    feed_noticed: Option<i64>,
    first: Option<i64>,
    last: Option<i64>,
) -> (r: (Reschedule, Option<i64>))
    requires
        rule_wf(*rule),
    ensures
        ({
            let out = reschedule_run(items@, *rule, start, cutoff, feed_noticed, first, last);
            &&& r.0.entries@.len() == out.ins.len()
            &&& (forall|j: int|
                0 <= j < out.ins.len() ==> (#[trigger] r.0.entries@[j]).id@ == out.ins[j].id
                    && r.0.entries@[j].timestamp == out.ins[j].at)
            &&& (match (r.1, out.next) {
                (Option::Some(a), Option::Some(b)) => a as int == b,
                (Option::None, Option::None) => true,
                _ => false,
            })
        }),
{
    let fnot = match feed_noticed {
        Option::Some(f) => f,
        Option::None => start,
    };
    let ghost cfg = RCfg {
        items: items@,
        rule: *rule,
        start: start as int,
        cutoff,
        feed_noticed: fnot as int,
        first,
        last,
    };
    let mut it = RuleIter::new(rule);
    proof {
        assert(to_ints(Seq::<usize>::empty()) =~= Seq::<int>::empty());
        assert(recs_view(Seq::<Rec>::empty()) =~= Seq::<Ins>::empty());
    }
    let (recs, next) = run_exec(
        items, &mut it, start, fnot, cutoff, first, last, 0, Vec::new(), Vec::new(), Ghost(cfg),
        Ghost(0),
    );
    let ghost out = reschedule_run(items@, *rule, start, cutoff, feed_noticed, first, last);
    let mut entries: Vec<ReplayedItem> = Vec::new();
    let n = recs.len();
    let mut i: usize = 0;
    while i < n
        invariant
            0 <= i <= n,
            n == recs@.len(),
            recs_view(recs@) == out.ins,
            entries@.len() == i as int,
            forall|j: int|
                0 <= j < i ==> (#[trigger] entries@[j]).id@ == out.ins[j].id
                    && entries@[j].timestamp == out.ins[j].at,
        decreases n - i,
    {
        proof {
            assert(recs_view(recs@)[i as int] == rec_ins(
                recs@[i as int].id@,
                recs@[i as int].at as int,
                recs@[i as int].from_slot,
            ));
        }
        entries.push(ReplayedItem { id: recs[i].id.clone(), timestamp: recs[i].at });
        i = i + 1;
    }
    (Reschedule { entries }, next)
}

// ------------------------------------------------------------------
// Laws.
// ------------------------------------------------------------------

/// No id is assigned twice.
pub open spec fn ids_unique(ins: Seq<Ins>) -> bool {
    forall|a: int, b: int| 0 <= a < b < ins.len() ==> ins[a].id != ins[b].id
}

/// Every assigned id comes from the history.
pub open spec fn ids_from(items: Seq<CachedEntry>, ins: Seq<Ins>) -> bool {
    forall|j: int|
        0 <= j < ins.len() ==> exists|i: int|
            0 <= i < items.len() && items[i].id@ == (#[trigger] ins[j]).id
}

/// Only slot-filling assignments, none from the caught-up branch.
pub open spec fn all_from_slot(ins: Seq<Ins>) -> bool {
    forall|j: int| 0 <= j < ins.len() ==> ins[j].from_slot
}

/// Assignment instants strictly increase in recording order.
pub open spec fn strictly_increasing(ins: Seq<Ins>) -> bool {
    forall|a: int, b: int| 0 <= a < b < ins.len() ==> ins[a].at < ins[b].at
}

pub open spec fn delayed_bounded(items: Seq<CachedEntry>, delayed: Seq<int>) -> bool {
    forall|d: int| 0 <= d < delayed.len() ==> 0 <= #[trigger] delayed[d] < items.len()
}

pub open spec fn sum_m(cfg: RCfg, st: RSt) -> nat {
    cand_rem(cfg, st) + st.delayed.len()
}

proof fn lemma_inner_laws(cfg: RCfg, st: RSt, slot: int)
    requires
        ids_unique(st.ins),
        ids_from(cfg.items, st.ins),
        delayed_bounded(cfg.items, st.delayed),
    ensures
        match run_inner(cfg, st, slot) {
            InnerOut::Done { ins } => ids_unique(ins) && ids_from(cfg.items, ins)
                && st.ins.is_prefix_of(ins) && ins.len() <= st.ins.len() + sum_m(cfg, st),
            InnerOut::NextSlot { st: st2 } => ids_unique(st2.ins) && ids_from(cfg.items, st2.ins)
                && delayed_bounded(cfg.items, st2.delayed) && st.ins.is_prefix_of(st2.ins)
                && st2.ins.len() + sum_m(cfg, st2) <= st.ins.len() + sum_m(cfg, st) && st2.cand
                >= st.cand,
        },
    decreases inner_m(cfg, st),
{
    lemma_pick(cfg, st, slot);
    match pick(cfg, st, slot) {
        Option::None => {},
        Option::Some(p) => {
            let idx = p.0;
            let st1 = p.1;
            let eid = id_of(cfg.items, idx);
            let enot = noticed_of(cfg.items, idx);
            let epub = published_of(cfg.items, idx);
            lemma_first_eligible(cfg.items, st.delayed, slot);
            lemma_next_cand(cfg, st.cand);
            // The picked index is in bounds: either it came from the
            // bounded buffer or from the candidate scan.
            assert(sum_m(cfg, st1) < sum_m(cfg, st) || sum_m(cfg, st1) == sum_m(cfg, st));
            if inserted(st1.ins, eid) {
                lemma_inner_laws(cfg, st1, slot);
            } else if pub_le_slot(epub, slot) {
                if enot > slot && cfg.start >= cfg.feed_noticed {
                    let pos = ins_pos(cfg.items, st1.delayed, epub);
                    lemma_ins_pos(cfg.items, st1.delayed, epub);
                    let st2 = RSt { delayed: st1.delayed.insert(pos, idx), ..st1 };
                    assert(0 <= idx < cfg.items.len());
                    assert(delayed_bounded(cfg.items, st2.delayed)) by {
                        assert(forall|d: int|
                            0 <= d < st2.delayed.len() ==> #[trigger] st2.delayed[d] == if d < pos {
                                st1.delayed[d]
                            } else if d == pos {
                                idx
                            } else {
                                st1.delayed[d - 1]
                            });
                    }
                    assert(sum_m(cfg, st2) <= sum_m(cfg, st));
                    lemma_inner_laws(cfg, st2, slot);
                } else if rescheduled_before(cfg.items, idx, slot) {
                    lemma_inner_laws(cfg, st1, slot);
                } else {
                    match unpub_status(cfg.items, eid, slot) {
                        Unpub::BeforeSlot => {
                            lemma_inner_laws(cfg, st1, slot);
                        },
                        Unpub::AfterSlot => {},
                        Unpub::Never => {
                            let new = Ins { id: eid, at: slot, from_slot: true };
                            let st2 = RSt { ins: st1.ins.push(new), ..st1 };
                            assert(ids_unique(st2.ins));
                            assert(0 <= idx < cfg.items.len());
                            assert(ids_from(cfg.items, st2.ins));
                        },
                    }
                }
            } else {
                let at = epub.unwrap() as int;
                let new = Ins { id: eid, at, from_slot: false };
                let st2 = RSt { ins: st1.ins.push(new), ..st1 };
                assert(ids_unique(st2.ins));
                assert(0 <= idx < cfg.items.len());
                assert(ids_from(cfg.items, st2.ins));
                lemma_inner_laws(cfg, st2, slot);
            }
        },
    }
}

proof fn lemma_run_laws(cfg: RCfg, st: RSt)
    requires
        rule_wf(cfg.rule),
        ids_unique(st.ins),
        ids_from(cfg.items, st.ins),
        delayed_bounded(cfg.items, st.delayed),
    ensures
        ids_unique(run(cfg, st).ins),
        ids_from(cfg.items, run(cfg, st).ins),
        st.ins.is_prefix_of(run(cfg, st).ins),
        run(cfg, st).ins.len() <= st.ins.len() + sum_m(cfg, st),
    decreases inner_m(cfg, st), wait_m(cfg, st),
{
    let slot = slot_at(cfg.rule, st.slot_k);
    if cfg.cutoff is Some && slot >= cfg.cutoff.unwrap() {
    } else {
        lemma_inner_laws(cfg, st, slot);
        match run_inner(cfg, st, slot) {
            InnerOut::Done { ins } => {},
            InnerOut::NextSlot { st: st2 } => {
                lemma_run_inner_frame(cfg, st, slot);
                lemma_slot_at_increasing(cfg.rule, st.slot_k);
                if inner_m(cfg, st2) == inner_m(cfg, st) {
                    lemma_dmax(cfg.items, st.delayed);
                }
                lemma_run_laws(cfg, RSt { slot_k: st.slot_k + 1, ..st2 });
            },
        }
    }
}

/// The reschedule assigns each item id at most once, and never an id
/// absent from the history.
pub proof fn lemma_at_most_one(
    items: Seq<CachedEntry>,
    rule: Rule,
    start: i64,
    cutoff: Option<i64>,
    feed_noticed: Option<i64>,
    first: Option<i64>,
    last: Option<i64>,
)
    requires
        rule_wf(rule),
    ensures
        ids_unique(reschedule_run(items, rule, start, cutoff, feed_noticed, first, last).ins),
        ids_from(items, reschedule_run(items, rule, start, cutoff, feed_noticed, first, last).ins),
{
    let fnot = match feed_noticed {
        Option::Some(f) => f as int,
        Option::None => start as int,
    };
    let cfg = RCfg { items, rule, start: start as int, cutoff, feed_noticed: fnot, first, last };
    lemma_run_laws(cfg, RSt { cand: 0, delayed: Seq::empty(), ins: Seq::empty(), slot_k: 0 });
}

/// A finite history yields a finite reschedule: at most one assignment per
/// history row, whatever the rule and cutoff.  (That the walk itself ends
/// is the `decreases` measure of [`run`], which Verus checks.)
pub proof fn lemma_reschedule_finite(
    items: Seq<CachedEntry>,
    rule: Rule,
    start: i64,
    cutoff: Option<i64>,
    feed_noticed: Option<i64>,
    first: Option<i64>,
    last: Option<i64>,
)
    requires
        rule_wf(rule),
    ensures
        reschedule_run(items, rule, start, cutoff, feed_noticed, first, last).ins.len()
            <= items.len(),
{
    let fnot = match feed_noticed {
        Option::Some(f) => f as int,
        Option::None => start as int,
    };
    let cfg = RCfg { items, rule, start: start as int, cutoff, feed_noticed: fnot, first, last };
    lemma_run_laws(cfg, RSt { cand: 0, delayed: Seq::empty(), ins: Seq::empty(), slot_k: 0 });
}

proof fn lemma_inner_monotone(cfg: RCfg, st: RSt, slot: int)
    requires
        all_from_slot(st.ins) ==> strictly_increasing(st.ins) && (forall|j: int|
            0 <= j < st.ins.len() ==> (#[trigger] st.ins[j]).at < slot),
    ensures
        match run_inner(cfg, st, slot) {
            InnerOut::Done { ins } => all_from_slot(ins) ==> strictly_increasing(ins),
            InnerOut::NextSlot { st: st2 } => all_from_slot(st2.ins) ==> strictly_increasing(
                st2.ins,
            ) && (forall|j: int| 0 <= j < st2.ins.len() ==> (#[trigger] st2.ins[j]).at <= slot),
        },
    decreases inner_m(cfg, st),
{
    lemma_pick(cfg, st, slot);
    match pick(cfg, st, slot) {
        Option::None => {},
        Option::Some(p) => {
            let idx = p.0;
            let st1 = p.1;
            let eid = id_of(cfg.items, idx);
            let enot = noticed_of(cfg.items, idx);
            let epub = published_of(cfg.items, idx);
            if inserted(st1.ins, eid) {
                lemma_inner_monotone(cfg, st1, slot);
            } else if pub_le_slot(epub, slot) {
                if enot > slot && cfg.start >= cfg.feed_noticed {
                    let pos = ins_pos(cfg.items, st1.delayed, epub);
                    lemma_ins_pos(cfg.items, st1.delayed, epub);
                    lemma_inner_monotone(
                        cfg,
                        RSt { delayed: st1.delayed.insert(pos, idx), ..st1 },
                        slot,
                    );
                } else if rescheduled_before(cfg.items, idx, slot) {
                    lemma_inner_monotone(cfg, st1, slot);
                } else {
                    match unpub_status(cfg.items, eid, slot) {
                        Unpub::BeforeSlot => {
                            lemma_inner_monotone(cfg, st1, slot);
                        },
                        Unpub::AfterSlot => {},
                        Unpub::Never => {
                            let new = Ins { id: eid, at: slot, from_slot: true };
                            let st2 = RSt { ins: st1.ins.push(new), ..st1 };
                            if all_from_slot(st2.ins) {
                                assert(forall|j: int|
                                    0 <= j < st1.ins.len() ==> (#[trigger] st1.ins[j])
                                        == st2.ins[j]);
                                assert(all_from_slot(st1.ins));
                            }
                        },
                    }
                }
            } else {
                let at = epub.unwrap() as int;
                let new = Ins { id: eid, at, from_slot: false };
                let st2 = RSt { ins: st1.ins.push(new), ..st1 };
                assert(!all_from_slot(st2.ins)) by {
                    assert(!st2.ins[st2.ins.len() - 1].from_slot);
                }
                lemma_inner_monotone(cfg, st2, slot);
            }
        },
    }
}

proof fn lemma_run_monotone(cfg: RCfg, st: RSt)
    requires
        rule_wf(cfg.rule),
        cfg.cutoff is Some,
        all_from_slot(st.ins) ==> strictly_increasing(st.ins) && (forall|j: int|
            0 <= j < st.ins.len() ==> (#[trigger] st.ins[j]).at < slot_at(cfg.rule, st.slot_k)),
    ensures
        all_from_slot(run(cfg, st).ins) ==> strictly_increasing(run(cfg, st).ins),
    decreases inner_m(cfg, st), wait_m(cfg, st),
{
    let slot = slot_at(cfg.rule, st.slot_k);
    if cfg.cutoff is Some && slot >= cfg.cutoff.unwrap() {
    } else {
        lemma_inner_monotone(cfg, st, slot);
        match run_inner(cfg, st, slot) {
            InnerOut::Done { ins } => {},
            InnerOut::NextSlot { st: st2 } => {
                lemma_run_inner_frame(cfg, st, slot);
                lemma_slot_at_increasing(cfg.rule, st.slot_k);
                if inner_m(cfg, st2) == inner_m(cfg, st) {
                    lemma_dmax(cfg.items, st.delayed);
                }
                lemma_run_monotone(cfg, RSt { slot_k: st.slot_k + 1, ..st2 });
            },
        }
    }
}

/// With a finite cutoff, and as long as no item fell into the caught-up
/// branch (every assignment filled a slot), the rescheduled instants
/// strictly increase in the order the slots were consumed.
pub proof fn lemma_monotone_slots(
    items: Seq<CachedEntry>,
    rule: Rule,
    start: i64,
    cutoff: i64,
    feed_noticed: Option<i64>,
    first: Option<i64>,
    last: Option<i64>,
)
    requires
        rule_wf(rule),
    ensures
        ({
            let out = reschedule_run(
                items,
                rule,
                start,
                Option::Some(cutoff),
                feed_noticed,
                first,
                last,
            );
            all_from_slot(out.ins) ==> strictly_increasing(out.ins)
        }),
{
    let fnot = match feed_noticed {
        Option::Some(f) => f as int,
        Option::None => start as int,
    };
    let cfg = RCfg {
        items,
        rule,
        start: start as int,
        cutoff: Option::Some(cutoff),
        feed_noticed: fnot,
        first,
        last,
    };
    lemma_run_monotone(cfg, RSt { cand: 0, delayed: Seq::empty(), ins: Seq::empty(), slot_k: 0 });
}

} // verus!
