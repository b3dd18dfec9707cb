//! The feed rewriter: copies the upstream bytes through, substituting
//! rescheduled timestamps, the feed title and an optional privacy marking,
//! and eliding items that are not part of the replay.
//!
//! The meaning is pinned by the byte-producing interpretation [`rw_from`]:
//! every event outside the rewritten places contributes its exact input
//! bytes, which is what makes the output byte-faithful.

use vstd::prelude::*;

use crate::reschedule::{ReplayedItem, Reschedule};
use crate::summarize::{lemma_rc_next, nm_date, nm_guid, nm_item, nm_title, rc_from, RcOut};
use crate::time::{rfc2822_of, rfc3339_of};
use crate::xml::{
    attrs_from, ev_view, events_view, graw, name_end, raw_of, serialize, spec_tag_name,
    wf_event, GEvent, XmlEvent, XmlError,
};
use vstd::utf8::encode_utf8;

verus! {

/// Why a rewrite failed.
#[derive(Debug)]
pub enum RewriteError {
    /// The upstream bytes could not be read as a feed.
    Parse,
    /// The rewritten feed could not be produced.
    Write,
}

pub open spec fn nm_channel(n: Seq<u8>) -> bool {
    n =~= seq![99u8, 104u8, 97u8, 110u8, 110u8, 101u8, 108u8]
}

pub open spec fn nm_feed(n: Seq<u8>) -> bool {
    n =~= seq![102u8, 101u8, 101u8, 100u8]
}

pub open spec fn nm_pubdate(n: Seq<u8>) -> bool {
    n =~= seq![112u8, 117u8, 98u8, 68u8, 97u8, 116u8, 101u8]
}

/// `<itunes:block>Yes</itunes:block>`
pub open spec fn block_bytes() -> Seq<u8> {
    seq![
        60u8, 105u8, 116u8, 117u8, 110u8, 101u8, 115u8, 58u8, 98u8, 108u8, 111u8, 99u8, 107u8,
        62u8, 89u8, 101u8, 115u8, 60u8, 47u8, 105u8, 116u8, 117u8, 110u8, 101u8, 115u8, 58u8,
        98u8, 108u8, 111u8, 99u8, 107u8, 62u8,
    ]
}

/// ` (PodReplay)`
pub open spec fn title_suffix() -> Seq<u8> {
    seq![32u8, 40u8, 80u8, 111u8, 100u8, 82u8, 101u8, 112u8, 108u8, 97u8, 121u8, 41u8]
}

/// `Untitled Podreplay Feed`
pub open spec fn default_title() -> Seq<u8> {
    seq![
        85u8, 110u8, 116u8, 105u8, 116u8, 108u8, 101u8, 100u8, 32u8, 80u8, 111u8, 100u8, 114u8,
        101u8, 112u8, 108u8, 97u8, 121u8, 32u8, 70u8, 101u8, 101u8, 100u8,
    ]
}

/// The replacement text of a feed title: the custom title if one was
/// given, the upstream title plus a marker when one was read, a default
/// literal otherwise.
pub open spec fn title_text(custom: Option<Seq<u8>>, existing: Option<Seq<u8>>) -> Seq<u8> {
    match custom {
        Option::Some(t) => t,
        Option::None => match existing {
            Option::Some(e) => e + title_suffix(),
            Option::None => default_title(),
        },
    }
}

/// The substituted timestamp text: RFC-2822 inside `pubDate`, RFC-3339
/// elsewhere (`updated`).
pub open spec fn fmt_ts(name: Seq<u8>, ts: i64) -> Seq<u8> {
    if nm_pubdate(name) {
        encode_utf8(rfc2822_of(ts as int))
    } else {
        encode_utf8(rfc3339_of(ts as int))
    }
}

/// The rescheduled instant for an item id given as UTF-8 bytes.
pub open spec fn resch_get(entries: Seq<ReplayedItem>, idb: Seq<u8>) -> Option<i64>
    decreases entries.len(),
{
    if entries.len() == 0 {
        Option::None
    } else if encode_utf8(entries[0].id@) == idb {
        Option::Some(entries[0].timestamp)
    } else {
        resch_get(entries.skip(1), idb)
    }
}

/// First closing tag with this name at or after `i`.
pub open spec fn find_close(events: Seq<GEvent>, i: int, name: Seq<u8>) -> int
    decreases events.len() - i,
{
    if i < 0 || i >= events.len() {
        events.len() as int
    } else {
        match events[i] {
            GEvent::Close(v) => {
                if spec_tag_name(v, 2) == name {
                    i
                } else {
                    find_close(events, i + 1, name)
                }
            },
            _ => find_close(events, i + 1, name),
        }
    }
}

pub proof fn lemma_find_close(events: Seq<GEvent>, i: int, name: Seq<u8>)
    requires
        0 <= i <= events.len(),
    ensures
        i <= find_close(events, i, name) <= events.len(),
        find_close(events, i, name) < events.len() ==> (events[find_close(events, i, name)]
            is Close),
    decreases events.len() - i,
{
    if i < events.len() {
        lemma_find_close(events, i + 1, name);
    }
}

/// First item-identifier opening tag (`guid` or `id`) in `[i, stop)`.
pub open spec fn find_guid(events: Seq<GEvent>, i: int, stop: int) -> int
    decreases stop - i,
{
    if i < 0 || i >= stop || i >= events.len() {
        stop
    } else {
        match events[i] {
            GEvent::Open(v) => {
                if nm_guid(spec_tag_name(v, 1)) {
                    i
                } else {
                    find_guid(events, i + 1, stop)
                }
            },
            _ => find_guid(events, i + 1, stop),
        }
    }
}

pub proof fn lemma_find_guid(events: Seq<GEvent>, i: int, stop: int)
    requires
        0 <= i <= stop,
    ensures
        i <= find_guid(events, i, stop) <= stop,
        find_guid(events, i, stop) < stop ==> find_guid(events, i, stop) < events.len() && (
        events[find_guid(events, i, stop)] is Open),
    decreases stop - i,
{
    if i < stop && i < events.len() {
        lemma_find_guid(events, i + 1, stop);
    }
}

/// Whether a timestamp element opens anywhere in `[i, stop)`.
pub open spec fn span_has_date(events: Seq<GEvent>, i: int, stop: int) -> bool {
    exists|j: int|
        i <= j < stop && j < events.len() && match #[trigger] events[j] {
            GEvent::Open(v) => nm_date(spec_tag_name(v, 1)),
            _ => false,
        }
}

/// Whether an audio enclosure appears anywhere in `[i, stop)`.
pub open spec fn span_has_enc(events: Seq<GEvent>, i: int, stop: int) -> bool {
    exists|j: int|
        i <= j < stop && j < events.len() && match #[trigger] events[j] {
            GEvent::Open(v) => crate::summarize::spec_is_audio(
                spec_tag_name(v, 1),
                attrs_from(v, name_end(v, 1)),
            ),
            GEvent::SelfClose(v) => crate::summarize::spec_is_audio(
                spec_tag_name(v, 1),
                attrs_from(v, name_end(v, 1)),
            ),
            _ => false,
        }
}

/// The bytes a kept item's body contributes: everything verbatim, except
/// that each timestamp element is replaced by its opening tag, the
/// formatted rescheduled instant, and its closing tag.
pub open spec fn item_emit(events: Seq<GEvent>, j: int, stop: int, ts: i64) -> Option<Seq<u8>>
    decreases stop - j,
        when stop <= events.len()
{
    if j < 0 || j >= stop {
        Option::Some(Seq::empty())
    } else {
        match events[j] {
            GEvent::Open(v) => {
                let name = spec_tag_name(v, 1);
                if nm_date(name) {
                    let c = find_close(events, j + 1, name);
                    if c >= stop {
                        Option::None
                    } else {
                        proof {
                            lemma_find_close(events, j + 1, name);
                        }
                        match item_emit(events, c + 1, stop, ts) {
                            Option::Some(rest) => Option::Some(
                                v + fmt_ts(name, ts) + graw(events[c]) + rest,
                            ),
                            Option::None => Option::None,
                        }
                    }
                } else {
                    match item_emit(events, j + 1, stop, ts) {
                        Option::Some(rest) => Option::Some(v + rest),
                        Option::None => Option::None,
                    }
                }
            },
            _ => {
                match item_emit(events, j + 1, stop, ts) {
                    Option::Some(rest) => Option::Some(graw(events[j]) + rest),
                    Option::None => Option::None,
                }
            },
        }
    }
}

/// One whole item, from its opening tag: what it contributes and where
/// processing resumes.  An item is dropped (contributing nothing) when its
/// identifier is not in the reschedule map or it lacks an identifier, a
/// timestamp element or an audio enclosure; reading its identifier text
/// aborts the whole rewrite on malformed content.
pub open spec fn item_step(events: Seq<GEvent>, i: int, map: Seq<ReplayedItem>) -> Option<
    (Seq<u8>, int),
> {
    let name = match events[i] {
        GEvent::Open(v) => spec_tag_name(v, 1),
        _ => Seq::empty(),
    };
    let close = find_close(events, i + 1, name);
    if close >= events.len() {
        Option::None
    } else {
        let g = find_guid(events, i + 1, close);
        if g >= close {
            // No identifier: the item is dropped.
            Option::Some((Seq::empty(), close + 1))
        } else {
            let gname = match events[g] {
                GEvent::Open(v) => spec_tag_name(v, 1),
                _ => Seq::empty(),
            };
            match rc_from(events, g + 1, gname, Seq::empty()) {
                RcOut::Failed { .. } => Option::None,
                RcOut::OkText { text, .. } => {
                    match resch_get(map, text) {
                        Option::None => Option::Some((Seq::empty(), close + 1)),
                        Option::Some(ts) => {
                            if span_has_date(events, i + 1, close) && span_has_enc(
                                events,
                                i + 1,
                                close,
                            ) {
                                match item_emit(events, i + 1, close, ts) {
                                    Option::Some(body) => Option::Some(
                                        (
                                            graw(events[i]) + body + graw(events[close]),
                                            close + 1,
                                        ),
                                    ),
                                    Option::None => Option::None,
                                }
                            } else {
                                Option::Some((Seq::empty(), close + 1))
                            }
                        },
                    }
                },
            }
        }
    }
}

/// Whether an opening tag carries the Atom default namespace.
pub open spec fn has_atom_ns(raw: Seq<u8>) -> bool {
    exists|k: int|
        0 <= k < attrs_from(raw, name_end(raw, 1)).len() && (#[trigger] attrs_from(
            raw,
            name_end(raw, 1),
        )[k]).0 == seq![120u8, 109u8, 108u8, 110u8, 115u8] && attrs_from(
            raw,
            name_end(raw, 1),
        )[k].1 == seq![
            104u8, 116u8, 116u8, 112u8, 58u8, 47u8, 47u8, 119u8, 119u8, 119u8, 46u8, 119u8,
            51u8, 46u8, 111u8, 114u8, 103u8, 47u8, 50u8, 48u8, 48u8, 53u8, 47u8, 65u8, 116u8,
            111u8, 109u8,
        ]
}

/// The whole rewrite, from event `i` on, producing output bytes.
///
/// Items are handled by [`item_step`]; the first feed-scope title element
/// is replaced by [`title_text`]; when `mark` is set, a privacy marking is
/// inserted right after `channel` (or after `feed` carrying the Atom
/// namespace); every other event contributes its exact input bytes.
pub open spec fn rw_from(
    events: Seq<GEvent>,
    i: int,
    title_done: bool,
    map: Seq<ReplayedItem>,
    mark: bool,
    custom: Option<Seq<u8>>,
) -> Option<Seq<u8>>
    decreases events.len() - i,
        when i >= 0
{
    if i >= events.len() {
        Option::Some(Seq::empty())
    } else {
        match events[i] {
            GEvent::Open(v) => {
                let name = spec_tag_name(v, 1);
                if nm_item(name) {
                    match item_step(events, i, map) {
                        Option::None => Option::None,
                        Option::Some(p) => {
                            proof {
                                lemma_item_step_next(events, i, map);
                            }
                            match rw_from(events, p.1, title_done, map, mark, custom) {
                                Option::Some(rest) => Option::Some(p.0 + rest),
                                Option::None => Option::None,
                            }
                        },
                    }
                } else if nm_title(name) && !title_done {
                    let c = find_close(events, i + 1, name);
                    if c >= events.len() {
                        Option::None
                    } else {
                        proof {
                            lemma_find_close(events, i + 1, name);
                        }
                        let existing = match rc_from(events, i + 1, name, Seq::empty()) {
                            RcOut::OkText { text, .. } => Option::Some(text),
                            RcOut::Failed { .. } => Option::None,
                        };
                        match rw_from(events, c + 1, true, map, mark, custom) {
                            Option::Some(rest) => Option::Some(
                                v + title_text(custom, existing) + graw(events[c]) + rest,
                            ),
                            Option::None => Option::None,
                        }
                    }
                } else if nm_channel(name) && mark {
                    match rw_from(events, i + 1, title_done, map, mark, custom) {
                        Option::Some(rest) => Option::Some(v + block_bytes() + rest),
                        Option::None => Option::None,
                    }
                } else if nm_feed(name) && mark && has_atom_ns(v) {
                    match rw_from(events, i + 1, title_done, map, mark, custom) {
                        Option::Some(rest) => Option::Some(v + block_bytes() + rest),
                        Option::None => Option::None,
                    }
                } else {
                    match rw_from(events, i + 1, title_done, map, mark, custom) {
                        Option::Some(rest) => Option::Some(v + rest),
                        Option::None => Option::None,
                    }
                }
            },
            _ => {
                match rw_from(events, i + 1, title_done, map, mark, custom) {
                    Option::Some(rest) => Option::Some(graw(events[i]) + rest),
                    Option::None => Option::None,
                }
            },
        }
    }
}

pub proof fn lemma_item_step_next(events: Seq<GEvent>, i: int, map: Seq<ReplayedItem>)
    requires
        0 <= i < events.len(),
    ensures
        match item_step(events, i, map) {
            Option::Some(p) => i < p.1 <= events.len(),
            Option::None => true,
        },
{
    let name = match events[i] {
        GEvent::Open(v) => spec_tag_name(v, 1),
        _ => Seq::empty(),
    };
    lemma_find_close(events, i + 1, name);
}

// ------------------------------------------------------------------
// The executable rewriter.
// ------------------------------------------------------------------

/// A string's UTF-8 bytes, as an owned vector.
fn string_bytes(s: &String) -> (r: Vec<u8>)
    ensures
        r@ == encode_utf8(s@),
{
    let b: &[u8] = s.as_str().as_bytes();
    let n = b.len();
    let mut r: Vec<u8> = Vec::new();
    let mut k: usize = 0;
    while k < n
        invariant
            0 <= k <= n,
            n == b@.len(),
            r@ =~= b@.subrange(0, k as int),
        decreases n - k,
    {
        r.push(b[k]);
        k = k + 1;
    }
    proof {
        assert(r@ =~= b@);
    }
    r
}

fn push_bytes(out: &mut Vec<u8>, b: &Vec<u8>)
    ensures
        final(out)@ == old(out)@ + b@,
{
    let n = b.len();
    let mut k: usize = 0;
    while k < n
        invariant
            0 <= k <= n,
            n == b@.len(),
            out@ =~= old(out)@ + b@.subrange(0, k as int),
        decreases n - k,
    {
        out.push(b[k]);
        k = k + 1;
    }
    proof {
        assert(out@ =~= old(out)@ + b@);
    }
}

fn push_event_raw(out: &mut Vec<u8>, ev: &XmlEvent)
    ensures
        final(out)@ == old(out)@ + raw_of(*ev),
{
    match ev {
        XmlEvent::Open(v) => push_bytes(out, v),
        XmlEvent::Close(v) => push_bytes(out, v),
        XmlEvent::SelfClose(v) => push_bytes(out, v),
        XmlEvent::Text(v) => push_bytes(out, v),
        XmlEvent::CData(v) => push_bytes(out, v),
        XmlEvent::Comment(v) => push_bytes(out, v),
        XmlEvent::Decl(v) => push_bytes(out, v),
        XmlEvent::Doctype(v) => push_bytes(out, v),
    }
}

fn exec_find_close(events: &Vec<XmlEvent>, i: usize, name: &Vec<u8>) -> (r: usize)
    requires
        i <= events@.len(),
        forall|q: int| 0 <= q < events@.len() ==> wf_event(#[trigger] events@[q]),
    ensures
        r as int == find_close(events_view(events@), i as int, name@),
        i <= r <= events@.len(),
{
    proof {
        lemma_find_close(events_view(events@), i as int, name@);
    }
    let n = events.len();
    let mut j = i;
    loop
        invariant
            i <= j <= n,
            n == events@.len(),
            forall|q: int| 0 <= q < events@.len() ==> wf_event(#[trigger] events@[q]),
            find_close(events_view(events@), i as int, name@) == find_close(events_view(events@), j as int, name@),
        decreases n - j,
    {
        if j >= n {
            return j;
        }
        match &events[j] {
            XmlEvent::Close(v) => {
                proof {
                    assert(wf_event(events@[j as int]));
                }
                let cn = crate::xml::tag_name(v, 2);
                if crate::summarize::names_equal(&cn, name) {
                    return j;
                }
            },
            _ => {},
        }
        j = j + 1;
    }
}

fn exec_find_guid(events: &Vec<XmlEvent>, i: usize, stop: usize) -> (r: usize)
    requires
        i <= stop <= events@.len(),
        forall|q: int| 0 <= q < events@.len() ==> wf_event(#[trigger] events@[q]),
    ensures
        r as int == find_guid(events_view(events@), i as int, stop as int),
        i <= r <= stop,
{
    proof {
        lemma_find_guid(events_view(events@), i as int, stop as int);
    }
    let mut j = i;
    loop
        invariant
            i <= j <= stop <= events@.len(),
            forall|q: int| 0 <= q < events@.len() ==> wf_event(#[trigger] events@[q]),
            find_guid(events_view(events@), i as int, stop as int) == find_guid(
                events_view(events@),
                j as int,
                stop as int,
            ),
        decreases stop - j,
    {
        if j >= stop {
            return j;
        }
        match &events[j] {
            XmlEvent::Open(v) => {
                proof {
                    assert(wf_event(events@[j as int]));
                }
                let cn = crate::xml::tag_name(v, 1);
                if crate::summarize::names_equal_lit(&cn, &[103, 117, 105, 100])
                    || crate::summarize::names_equal_lit(&cn, &[105, 100]) {
                    return j;
                }
            },
            _ => {},
        }
        j = j + 1;
    }
}

/// Whether `[i, stop)` opens a timestamp element / an audio enclosure.
fn exec_span_scan(events: &Vec<XmlEvent>, i: usize, stop: usize) -> (r: (bool, bool))
    requires
        i <= stop <= events@.len(),
        forall|q: int| 0 <= q < events@.len() ==> wf_event(#[trigger] events@[q]),
    ensures
        r.0 == span_has_date(events_view(events@), i as int, stop as int),
        r.1 == span_has_enc(events_view(events@), i as int, stop as int),
{
    let mut has_date = false;
    let mut has_enc = false;
    let mut j = i;
    while j < stop
        invariant
            i <= j <= stop <= events@.len(),
            forall|q: int| 0 <= q < events@.len() ==> wf_event(#[trigger] events@[q]),
            has_date == span_has_date(events_view(events@), i as int, j as int),
            has_enc == span_has_enc(events_view(events@), i as int, j as int),
        decreases stop - j,
    {
        match &events[j] {
            XmlEvent::Open(v) => {
                proof {
                    assert(wf_event(events@[j as int]));
                }
                let cn = crate::xml::tag_name(v, 1);
                if crate::summarize::names_equal_lit(&cn, &[112, 117, 98, 68, 97, 116, 101])
                    || crate::summarize::names_equal_lit(
                    &cn,
                    &[117, 112, 100, 97, 116, 101, 100],
                ) {
                    has_date = true;
                }
                if crate::summarize::is_audio_enclosure(v) {
                    has_enc = true;
                }
            },
            XmlEvent::SelfClose(v) => {
                if crate::summarize::is_audio_enclosure(v) {
                    has_enc = true;
                }
            },
            _ => {},
        }
        proof {
            let ge = events_view(events@);
            assert(ge[j as int] == ev_view(events@[j as int]));
            assert(span_has_date(ge, i as int, j as int + 1) == (span_has_date(
                ge,
                i as int,
                j as int,
            ) || match ge[j as int] {
                GEvent::Open(v) => nm_date(spec_tag_name(v, 1)),
                _ => false,
            }));
            assert(span_has_enc(ge, i as int, j as int + 1) == (span_has_enc(
                ge,
                i as int,
                j as int,
            ) || match ge[j as int] {
                GEvent::Open(v) => crate::summarize::spec_is_audio(
                    spec_tag_name(v, 1),
                    attrs_from(v, name_end(v, 1)),
                ),
                GEvent::SelfClose(v) => crate::summarize::spec_is_audio(
                    spec_tag_name(v, 1),
                    attrs_from(v, name_end(v, 1)),
                ),
                _ => false,
            }));
        }
        j = j + 1;
    }
    (has_date, has_enc)
}

/// The rescheduled instant for the id written in these bytes.
fn exec_resch_get(map: &Reschedule, idb: &Vec<u8>) -> (r: Option<i64>)
    ensures
        r == resch_get(map.entries@, idb@),
{
    let n = map.entries.len();
    proof {
        assert(map.entries@.skip(0) =~= map.entries@);
    }
    let mut k: usize = 0;
    while k < n
        invariant
            0 <= k <= n,
            n == map.entries@.len(),
            resch_get(map.entries@, idb@) == resch_get(map.entries@.skip(k as int), idb@),
        decreases n - k,
    {
        proof {
            assert(map.entries@.skip(k as int)[0] == map.entries@[k as int]);
            assert(map.entries@.skip(k as int).skip(1) =~= map.entries@.skip(k as int + 1));
        }
        let kb = string_bytes(&map.entries[k].id);
        if crate::summarize::names_equal(&kb, idb) {
            return Some(map.entries[k].timestamp);
        }
        k = k + 1;
    }
    proof {
        assert(map.entries@.skip(n as int).len() == 0);
    }
    None
}

/// Emits a kept item's body; equal to [`item_emit`].
fn exec_item_emit(
    events: &Vec<XmlEvent>,
    j: usize,
    stop: usize,
    ts: i64,
    out: &mut Vec<u8>,
) -> (ok: bool)
    requires
        j <= stop <= events@.len(),
        forall|q: int| 0 <= q < events@.len() ==> wf_event(#[trigger] events@[q]),
        crate::time::ts_in_range(ts as int),
    ensures
        match item_emit(events_view(events@), j as int, stop as int, ts) {
            Option::Some(b) => ok && final(out)@ == old(out)@ + b,
            Option::None => !ok,
        },
    decreases stop - j,
{
    if j >= stop {
        proof {
            assert(old(out)@ + Seq::<u8>::empty() =~= old(out)@);
        }
        return true;
    }
    match &events[j] {
        XmlEvent::Open(v) => {
            proof {
                assert(wf_event(events@[j as int]));
            }
            let name = crate::xml::tag_name(v, 1);
            let is_date = crate::summarize::names_equal_lit(
                &name,
                &[112, 117, 98, 68, 97, 116, 101],
            ) || crate::summarize::names_equal_lit(&name, &[117, 112, 100, 97, 116, 101, 100]);
            if is_date {
                let c = exec_find_close(events, j + 1, &name);
                if c >= stop {
                    return false;
                }
                let formatted = if crate::summarize::names_equal_lit(
                    &name,
                    &[112, 117, 98, 68, 97, 116, 101],
                ) {
                    crate::time::format_rfc2822(ts)
                } else {
                    crate::time::format_rfc3339(ts)
                };
                let fb = string_bytes(&formatted);
                push_bytes(out, v);
                push_bytes(out, &fb);
                push_event_raw(out, &events[c]);
                proof {
                    assert(fb@ == fmt_ts(name@, ts));
                }
                let r = exec_item_emit(events, c + 1, stop, ts, out);
                proof {
                    if r {
                        match item_emit(events_view(events@), c as int + 1, stop as int, ts) {
                            Option::Some(rest) => {
                                assert(final(out)@ =~= old(out)@ + (v@ + fmt_ts(name@, ts)
                                    + graw(events_view(events@)[c as int]) + rest));
                            },
                            Option::None => {},
                        }
                    }
                }
                r
            } else {
                push_bytes(out, v);
                let r = exec_item_emit(events, j + 1, stop, ts, out);
                proof {
                    if r {
                        match item_emit(events_view(events@), j as int + 1, stop as int, ts) {
                            Option::Some(rest) => {
                                assert(final(out)@ =~= old(out)@ + (v@ + rest));
                            },
                            Option::None => {},
                        }
                    }
                }
                r
            }
        },
        _ => {
            push_event_raw(out, &events[j]);
            let r = exec_item_emit(events, j + 1, stop, ts, out);
            proof {
                if r {
                    match item_emit(events_view(events@), j as int + 1, stop as int, ts) {
                        Option::Some(rest) => {
                            assert(final(out)@ =~= old(out)@ + (graw(events_view(events@)[j as int])
                                + rest));
                        },
                        Option::None => {},
                    }
                }
            }
            r
        },
    }
}

/// Handles one item from its opening tag; equal to [`item_step`].
fn exec_item_step(
    events: &Vec<XmlEvent>,
    i: usize,
    map: &Reschedule,
    out: &mut Vec<u8>,
) -> (r: Option<usize>)
    requires
        i < events@.len(),
        events_view(events@)[i as int] is Open,
        forall|q: int| 0 <= q < events@.len() ==> wf_event(#[trigger] events@[q]),
        forall|k: int|
            0 <= k < map.entries@.len() ==> crate::time::ts_in_range(
                (#[trigger] map.entries@[k]).timestamp as int,
            ),
    ensures
        match item_step(events_view(events@), i as int, map.entries@) {
            Option::Some(p) => r is Some && r.unwrap() as int == p.1 && final(out)@ == old(out)@
                + p.0 && p.1 <= events@.len(),
            Option::None => r is None,
        },
{
    proof {
        assert(wf_event(events@[i as int]));
        lemma_item_step_next(events_view(events@), i as int, map.entries@);
    }
    let _ = events.len();
    let name = match &events[i] {
        XmlEvent::Open(v) => crate::xml::tag_name(v, 1),
        _ => Vec::new(),
    };
    let close = exec_find_close(events, i + 1, &name);
    if close >= events.len() {
        return None;
    }
    let g = exec_find_guid(events, i + 1, close);
    if g >= close {
        proof {
            assert(old(out)@ + Seq::<u8>::empty() =~= old(out)@);
        }
        return Some(close + 1);
    }
    proof {
        lemma_find_guid(events_view(events@), i as int + 1, close as int);
        assert(wf_event(events@[g as int]));
    }
    let gname = match &events[g] {
        XmlEvent::Open(v) => crate::xml::tag_name(v, 1),
        _ => Vec::new(),
    };
    let (text, _next) = crate::summarize::read_contents(events, g + 1, &gname, Vec::new());
    let text = match text {
        Option::Some(t) => t,
        Option::None => {
            return None;
        },
    };
    let ts = match exec_resch_get(map, &text) {
        Option::Some(ts) => ts,
        Option::None => {
            proof {
                assert(old(out)@ + Seq::<u8>::empty() =~= old(out)@);
            }
            return Some(close + 1);
        },
    };
    proof {
        lemma_resch_get_range(map.entries@, text@);
    }
    let (has_date, has_enc) = exec_span_scan(events, i + 1, close);
    if !(has_date && has_enc) {
        proof {
            assert(old(out)@ + Seq::<u8>::empty() =~= old(out)@);
        }
        return Some(close + 1);
    }
    let ghost out0 = out@;
    push_event_raw(out, &events[i]);
    let ok = exec_item_emit(events, i + 1, close, ts, out);
    if !ok {
        return None;
    }
    push_event_raw(out, &events[close]);
    proof {
        match item_emit(events_view(events@), i as int + 1, close as int, ts) {
            Option::Some(body) => {
                assert(out@ =~= out0 + (graw(events_view(events@)[i as int]) + body + raw_of(
                    events@[close as int],
                )));
            },
            Option::None => {},
        }
    }
    Some(close + 1)
}

/// A looked-up instant comes from the map.
proof fn lemma_resch_get_range(entries: Seq<ReplayedItem>, idb: Seq<u8>)
    requires
        forall|k: int|
            0 <= k < entries.len() ==> crate::time::ts_in_range(
                (#[trigger] entries[k]).timestamp as int,
            ),
    ensures
        match resch_get(entries, idb) {
            Option::Some(ts) => crate::time::ts_in_range(ts as int),
            Option::None => true,
        },
    decreases entries.len(),
{
    if entries.len() > 0 && !(encode_utf8(entries[0].id@) == idb) {
        assert(forall|k: int| 1 <= k < entries.len() ==> entries.skip(1)[k - 1] == #[trigger] entries[k]);
        lemma_resch_get_range(entries.skip(1), idb);
    }
}

fn exec_has_atom_ns(v: &Vec<u8>) -> (r: bool)
    requires
        v@.len() >= 1,
    ensures
        r == has_atom_ns(v@),
{
    let attrs = crate::xml::tag_attrs(v);
    let ghost gattrs = attrs_from(v@, name_end(v@, 1));
    let n = attrs.len();
    let mut k: usize = 0;
    while k < n
        invariant
            0 <= k <= n,
            n == attrs@.len(),
            gattrs == crate::xml::attrs_view(attrs@),
            gattrs == attrs_from(v@, name_end(v@, 1)),
            forall|q: int|
                0 <= q < k ==> !((#[trigger] gattrs[q]).0 == seq![
                    120u8, 109u8, 108u8, 110u8, 115u8,
                ] && gattrs[q].1 == seq![
                    104u8, 116u8, 116u8, 112u8, 58u8, 47u8, 47u8, 119u8, 119u8, 119u8, 46u8,
                    119u8, 51u8, 46u8, 111u8, 114u8, 103u8, 47u8, 50u8, 48u8, 48u8, 53u8, 47u8,
                    65u8, 116u8, 111u8, 109u8,
                ]),
        decreases n - k,
    {
        proof {
            assert(gattrs[k as int] == (attrs@[k as int].0@, attrs@[k as int].1@));
        }
        if crate::summarize::names_equal_lit(&attrs[k].0, &[120, 109, 108, 110, 115])
            && crate::summarize::names_equal_lit(
            &attrs[k].1,
            &[
                104, 116, 116, 112, 58, 47, 47, 119, 119, 119, 46, 119, 51, 46, 111, 114, 103,
                47, 50, 48, 48, 53, 47, 65, 116, 111, 109,
            ],
        ) {
            proof {
                assert(gattrs[k as int].0 =~= seq![120u8, 109u8, 108u8, 110u8, 115u8]);
                assert(gattrs[k as int].1 =~= seq![
                    104u8, 116u8, 116u8, 112u8, 58u8, 47u8, 47u8, 119u8, 119u8, 119u8, 46u8,
                    119u8, 51u8, 46u8, 111u8, 114u8, 103u8, 47u8, 50u8, 48u8, 48u8, 53u8, 47u8,
                    65u8, 116u8, 111u8, 109u8,
                ]);
                assert((#[trigger] attrs_from(v@, name_end(v@, 1))[k as int])
                    == gattrs[k as int]);
            }
            return true;
        }
        k = k + 1;
    }
    false
}

/// Replaces one feed-scope title element.
fn exec_title_step(
    events: &Vec<XmlEvent>,
    i: usize,
    v: &Vec<u8>,
    name: &Vec<u8>,
    custom: &Option<Vec<u8>>,
    out: &mut Vec<u8>,
) -> (r: Option<usize>)
    requires
        i < events@.len(),
        events@[i as int] == XmlEvent::Open(*v),
        name@ == spec_tag_name(v@, 1),
        forall|q: int| 0 <= q < events@.len() ==> wf_event(#[trigger] events@[q]),
    ensures
        ({
            let cv = crate::summarize::obytes(*custom);
            let c = find_close(events_view(events@), i as int + 1, name@);
            let existing = match rc_from(events_view(events@), i as int + 1, name@, Seq::empty()) {
                RcOut::OkText { text: t0, .. } => Option::Some(t0),
                RcOut::Failed { .. } => Option::<Seq<u8>>::None,
            };
            match r {
                Option::Some(next) => c < events@.len() && next as int == c + 1 && final(out)@
                    == old(out)@ + (v@ + title_text(cv, existing) + graw(events_view(events@)[c])),
                Option::None => c >= events@.len(),
            }
        }),
{
    let n = events.len();
    let c = exec_find_close(events, i + 1, name);
    if c >= n {
        return None;
    }
    let (text, _next) = crate::summarize::read_contents(events, i + 1, name, Vec::new());
    let tb: Vec<u8> = match custom {
        Option::Some(t) => crate::xml::copy_vec_range_pub(t, 0, t.len()),
        Option::None => match &text {
            Option::Some(e) => {
                let mut b = crate::xml::copy_vec_range_pub(e, 0, e.len());
                let suffix: Vec<u8> = vec![32, 40, 80, 111, 100, 82, 101, 112, 108, 97, 121, 41];
                push_bytes(&mut b, &suffix);
                b
            },
            Option::None => {
                let d: Vec<u8> = vec![
                    85, 110, 116, 105, 116, 108, 101, 100, 32, 80, 111, 100, 114, 101, 112,
                    108, 97, 121, 32, 70, 101, 101, 100,
                ];
                d
            },
        },
    };
    proof {
        let existing = match rc_from(events_view(events@), i as int + 1, name@, Seq::empty()) {
            RcOut::OkText { text: t0, .. } => Option::Some(t0),
            RcOut::Failed { .. } => Option::<Seq<u8>>::None,
        };
        assert(tb@ =~= title_text(crate::summarize::obytes(*custom), existing));
    }
    push_bytes(out, v);
    push_bytes(out, &tb);
    push_event_raw(out, &events[c]);
    Some(c + 1)
}

/// The whole rewrite, executable; equal to [`rw_from`].
#[verifier::spinoff_prover]
#[verifier::rlimit(100)]
fn exec_rw(
    events: &Vec<XmlEvent>,
    i: usize,
    title_done: bool,
    map: &Reschedule,
    mark: bool,
    custom: &Option<Vec<u8>>,
    out: &mut Vec<u8>,
) -> (ok: bool)
    requires
        i <= events@.len(),
        forall|q: int| 0 <= q < events@.len() ==> wf_event(#[trigger] events@[q]),
        forall|k: int|
            0 <= k < map.entries@.len() ==> crate::time::ts_in_range(
                (#[trigger] map.entries@[k]).timestamp as int,
            ),
    ensures
        ({
            let cv = crate::summarize::obytes(*custom);
            match rw_from(events_view(events@), i as int, title_done, map.entries@, mark, cv) {
                Option::Some(b) => ok && final(out)@ == old(out)@ + b,
                Option::None => !ok,
            }
        }),
    decreases events@.len() - i,
{
    let ghost cv = crate::summarize::obytes(*custom);
    let n = events.len();
    if i >= n {
        proof {
            assert(old(out)@ + Seq::<u8>::empty() =~= old(out)@);
        }
        return true;
    }
    match &events[i] {
        XmlEvent::Open(v) => {
            proof {
                assert(wf_event(events@[i as int]));
            }
            let name = crate::xml::tag_name(v, 1);
            let is_item = crate::summarize::names_equal_lit(&name, &[105, 116, 101, 109])
                || crate::summarize::names_equal_lit(&name, &[101, 110, 116, 114, 121]);
            let is_title = crate::summarize::names_equal_lit(
                &name,
                &[116, 105, 116, 108, 101],
            );
            let is_channel = crate::summarize::names_equal_lit(
                &name,
                &[99, 104, 97, 110, 110, 101, 108],
            );
            let is_feed = crate::summarize::names_equal_lit(&name, &[102, 101, 101, 100]);
            if is_item {
                let ghost out0 = out@;
                let next = match exec_item_step(events, i, map, out) {
                    Option::Some(next) => next,
                    Option::None => {
                        return false;
                    },
                };
                proof {
                    lemma_item_step_next(events_view(events@), i as int, map.entries@);
                }
                let ghost out1 = out@;
                let r = exec_rw(events, next, title_done, map, mark, custom, out);
                proof {
                    if r {
                        match rw_from(events_view(events@), next as int, title_done, map.entries@, mark, cv) {
                            Option::Some(rest) => {
                                match item_step(events_view(events@), i as int, map.entries@) {
                                    Option::Some(p) => {
                                        assert(out@ =~= out0 + (p.0 + rest));
                                    },
                                    Option::None => {},
                                }
                            },
                            Option::None => {},
                        }
                    }
                }
                r
            } else if is_title && !title_done {
                let ghost out0 = out@;
                proof {
                    lemma_find_close(events_view(events@), i as int + 1, name@);
                }
                let next = match exec_title_step(events, i, v, &name, custom, out) {
                    Option::Some(next) => next,
                    Option::None => {
                        return false;
                    },
                };

                let r = exec_rw(events, next, true, map, mark, custom, out);
                proof {
                    if r {
                        let c = find_close(events_view(events@), i as int + 1, name@);
                        let existing = match rc_from(events_view(events@), i as int + 1, name@, Seq::empty()) {
                            RcOut::OkText { text: t0, .. } => Option::Some(t0),
                            RcOut::Failed { .. } => Option::<Seq<u8>>::None,
                        };
                        match rw_from(events_view(events@), c + 1, true, map.entries@, mark, cv) {
                            Option::Some(rest) => {
                                assert(out@ =~= out0 + (v@ + title_text(cv, existing) + raw_of(
                                    events@[c],
                                ) + rest));
                            },
                            Option::None => {},
                        }
                    }
                }
                r
            } else if (is_channel && mark) || (is_feed && mark && exec_has_atom_ns(v)) {
                let ghost out0 = out@;
                push_bytes(out, v);
                let block: Vec<u8> = vec![
                    60, 105, 116, 117, 110, 101, 115, 58, 98, 108, 111, 99, 107, 62, 89, 101,
                    115, 60, 47, 105, 116, 117, 110, 101, 115, 58, 98, 108, 111, 99, 107, 62,
                ];
                proof {
                    assert(block@ =~= block_bytes());
                }
                push_bytes(out, &block);
                let r = exec_rw(events, i + 1, title_done, map, mark, custom, out);
                proof {
                    if r {
                        match rw_from(events_view(events@), i as int + 1, title_done, map.entries@, mark, cv) {
                            Option::Some(rest) => {
                                assert(out@ =~= out0 + (v@ + block_bytes() + rest));
                            },
                            Option::None => {},
                        }
                    }
                }
                r
            } else {
                let ghost out0 = out@;
                push_bytes(out, v);
                let r = exec_rw(events, i + 1, title_done, map, mark, custom, out);
                proof {
                    if r {
                        match rw_from(events_view(events@), i as int + 1, title_done, map.entries@, mark, cv) {
                            Option::Some(rest) => {
                                assert(out@ =~= out0 + (v@ + rest));
                            },
                            Option::None => {},
                        }
                    }
                }
                r
            }
        },
        _ => {
            let ghost out0 = out@;
            push_event_raw(out, &events[i]);
            let r = exec_rw(events, i + 1, title_done, map, mark, custom, out);
            proof {
                if r {
                    match rw_from(events_view(events@), i as int + 1, title_done, map.entries@, mark, cv) {
                        Option::Some(rest) => {
                            assert(out@ =~= out0 + (graw(events_view(events@)[i as int]) + rest));
                        },
                        Option::None => {},
                    }
                }
            }
            r
        },
    }
}

/// The whole rewrite of `xml`, as a function of the bytes: the
/// deterministic tokenization run through [`rw_from`], or nothing when
/// either step fails.
pub open spec fn spec_rewrite(
    xml: Seq<u8>,
    map: Seq<ReplayedItem>,
    mark: bool,
    custom: Option<Seq<u8>>,
) -> Option<Seq<u8>> {
    match crate::xml::spec_tokenize_from(xml, 0) {
        Option::None => Option::None,
        Option::Some(toks) => rw_from(toks, 0, false, map, mark, custom),
    }
}

/// The view of an optional custom title.
pub open spec fn custom_view(custom: Option<String>) -> Option<Seq<u8>> {
    match custom {
        Option::Some(s) => Option::Some(encode_utf8(s@)),
        Option::None => Option::None,
    }
}

/// Rewrites upstream feed XML: rescheduled timestamps substituted, items
/// outside the reschedule map (or lacking an id, timestamp or audio
/// enclosure) elided, the first feed-scope title replaced, and a privacy
/// marking inserted when asked for.  Every byte outside those places is
/// copied through unchanged.
pub fn rewrite_feed(
    xml: &[u8],
    reschedule: &Reschedule,
    mark_as_private: bool,
    custom_title: &Option<String>,
) -> (r: Result<Vec<u8>, RewriteError>)
    requires
        forall|k: int|
            0 <= k < reschedule.entries@.len() ==> crate::time::ts_in_range(
                (#[trigger] reschedule.entries@[k]).timestamp as int,
            ),
    ensures
        match r {
            Result::Ok(out) => spec_rewrite(
                xml@,
                reschedule.entries@,
                mark_as_private,
                custom_view(*custom_title),
            ) == Option::Some(out@),
            Result::Err(_) => spec_rewrite(
                xml@,
                reschedule.entries@,
                mark_as_private,
                custom_view(*custom_title),
            ) is None,
        },
{
    let events = match crate::xml::tokenize(xml) {
        Result::Ok(evs) => evs,
        Result::Err(_) => {
            return Err(RewriteError::Parse);
        },
    };
    let custom: Option<Vec<u8>> = match custom_title {
        Option::Some(s) => Some(string_bytes(s)),
        Option::None => None,
    };
    let mut out: Vec<u8> = Vec::new();
    let ok = exec_rw(&events, 0, false, reschedule, mark_as_private, &custom, &mut out);
    if !ok {
        return Err(RewriteError::Parse);
    }
    proof {
        assert(crate::summarize::obytes(custom) == custom_view(*custom_title));
    }
    Ok(out)
}

// ------------------------------------------------------------------
// Laws.
// ------------------------------------------------------------------

/// With an empty reschedule map, no item contributes any output —
/// everything from an item's opening tag to its closing tag is dropped
/// whole, so the rewritten feed contains no items.
pub proof fn lemma_rewrite_drops_all_items(events: Seq<GEvent>, i: int)
    ensures
        match item_step(events, i, Seq::<ReplayedItem>::empty()) {
            Option::Some(p) => p.0 == Seq::<u8>::empty(),
            Option::None => true,
        },
{
}

proof fn lemma_serialize_split(events: Seq<GEvent>, a: int, b: int, c: int)
    requires
        0 <= a <= b <= c <= events.len(),
    ensures
        serialize(events.subrange(a, b)) + serialize(events.subrange(b, c)) == serialize(
            events.subrange(a, c),
        ),
    decreases c - b,
{
    if b == c {
        assert(events.subrange(b, c).len() == 0);
        assert(serialize(events.subrange(a, b)) + Seq::<u8>::empty() =~= serialize(
            events.subrange(a, b),
        ));
        assert(events.subrange(a, b) =~= events.subrange(a, c));
    } else {
        lemma_serialize_split(events, a, b, c - 1);
        let sab = events.subrange(a, b);
        let sbc = events.subrange(b, c);
        let sac = events.subrange(a, c);
        assert(sbc.drop_last() =~= events.subrange(b, c - 1));
        assert(sac.drop_last() =~= events.subrange(a, c - 1));
        assert(sbc.last() == events[c - 1]);
        assert(sac.last() == events[c - 1]);
        assert(serialize(sab) + (serialize(sbc.drop_last()) + graw(events[c - 1])) =~= (
        serialize(sab) + serialize(sbc.drop_last())) + graw(events[c - 1]));
    }
}

proof fn lemma_serialize_one(events: Seq<GEvent>, j: int)
    requires
        0 <= j < events.len(),
    ensures
        serialize(events.subrange(j, j + 1)) == graw(events[j]),
{
    let s = events.subrange(j, j + 1);
    assert(s.len() == 1);
    assert(s.last() == events[j]);
    assert(s.drop_last().len() == 0);
    assert(serialize(s.drop_last()) == Seq::<u8>::empty());
    assert(serialize(s) == serialize(s.drop_last()) + graw(events[j]));
    assert(Seq::<u8>::empty() + graw(events[j]) =~= graw(events[j]));
}

/// A kept item's body is emitted byte for byte when every timestamp
/// element in the span closes inside it and already contains exactly the
/// formatted replacement bytes.
pub proof fn lemma_item_emit_verbatim(events: Seq<GEvent>, j: int, stop: int, ts: i64)
    requires
        0 <= j <= stop <= events.len(),
        forall|jd: int|
            j <= jd < stop && (#[trigger] events[jd]) is Open && nm_date(
                spec_tag_name(events[jd]->Open_0, 1),
            ) ==> {
                let name = spec_tag_name(events[jd]->Open_0, 1);
                let c2 = find_close(events, jd + 1, name);
                c2 < stop && serialize(events.subrange(jd + 1, c2)) == fmt_ts(name, ts)
            },
    ensures
        item_emit(events, j, stop, ts) == Option::Some(serialize(events.subrange(j, stop))),
    decreases stop - j,
{
    if j >= stop {
        assert(events.subrange(stop, stop).len() == 0);
    } else {
        match events[j] {
            GEvent::Open(v) => {
                let name = spec_tag_name(v, 1);
                if nm_date(name) {
                    let c = find_close(events, j + 1, name);
                    lemma_find_close(events, j + 1, name);
                    assert(c < stop && serialize(events.subrange(j + 1, c)) == fmt_ts(name, ts));
                    lemma_item_emit_verbatim(events, c + 1, stop, ts);
                    lemma_serialize_one(events, j);
                    lemma_serialize_one(events, c);
                    lemma_serialize_split(events, j, j + 1, c);
                    lemma_serialize_split(events, j, c, c + 1);
                    lemma_serialize_split(events, j, c + 1, stop);
                    assert(v + fmt_ts(name, ts) + graw(events[c]) + serialize(
                        events.subrange(c + 1, stop),
                    ) =~= serialize(events.subrange(j, stop)));
                } else {
                    lemma_item_emit_verbatim(events, j + 1, stop, ts);
                    lemma_serialize_one(events, j);
                    lemma_serialize_split(events, j, j + 1, stop);
                    assert(v + serialize(events.subrange(j + 1, stop)) =~= serialize(
                        events.subrange(j, stop),
                    ));
                }
            },
            _ => {
                lemma_item_emit_verbatim(events, j + 1, stop, ts);
                lemma_serialize_one(events, j);
                lemma_serialize_split(events, j, j + 1, stop);
                assert(graw(events[j]) + serialize(events.subrange(j + 1, stop)) =~= serialize(
                    events.subrange(j, stop),
                ));
            },
        }
    }
}

/// Under the same hypotheses, a complete item (identifier in the map,
/// timestamp element and audio enclosure present) is emitted whole, byte
/// for byte.
pub proof fn lemma_item_step_verbatim(events: Seq<GEvent>, i: int, map: Seq<ReplayedItem>)
    requires
        0 <= i < events.len(),
        events[i] is Open,
        ({
            let name = spec_tag_name(events[i]->Open_0, 1);
            let close = find_close(events, i + 1, name);
            &&& close < events.len()
            &&& ({
                let g = find_guid(events, i + 1, close);
                &&& g < close
                &&& match rc_from(
                    events,
                    g + 1,
                    spec_tag_name(events[g]->Open_0, 1),
                    Seq::empty(),
                ) {
                    RcOut::OkText { text, .. } => match resch_get(map, text) {
                        Option::Some(ts) => span_has_date(events, i + 1, close) && span_has_enc(
                            events,
                            i + 1,
                            close,
                        ) && (forall|jd: int|
                            i + 1 <= jd < close && (#[trigger] events[jd]) is Open && nm_date(
                                spec_tag_name(events[jd]->Open_0, 1),
                            ) ==> {
                                let dname = spec_tag_name(events[jd]->Open_0, 1);
                                let c2 = find_close(events, jd + 1, dname);
                                c2 < close && serialize(events.subrange(jd + 1, c2)) == fmt_ts(
                                    dname,
                                    ts,
                                )
                            }),
                        Option::None => false,
                    },
                    RcOut::Failed { .. } => false,
                }
            })
        }),
    ensures
        ({
            let name = spec_tag_name(events[i]->Open_0, 1);
            let close = find_close(events, i + 1, name);
            item_step(events, i, map) == Option::Some(
                (serialize(events.subrange(i, close + 1)), close + 1),
            )
        }),
{
    let name = spec_tag_name(events[i]->Open_0, 1);
    let close = find_close(events, i + 1, name);
    lemma_find_close(events, i + 1, name);
    let g = find_guid(events, i + 1, close);
    lemma_find_guid(events, i + 1, close);
    let gname = spec_tag_name(events[g]->Open_0, 1);
    match rc_from(events, g + 1, gname, Seq::empty()) {
        RcOut::OkText { text, .. } => {
            let ts = resch_get(map, text).unwrap();
            lemma_item_emit_verbatim(events, i + 1, close, ts);
            lemma_serialize_one(events, i);
            lemma_serialize_one(events, close);
            lemma_serialize_split(events, i, i + 1, close);
            lemma_serialize_split(events, i, close, close + 1);
            assert(graw(events[i]) + serialize(events.subrange(i + 1, close)) + graw(
                events[close],
            ) =~= serialize(events.subrange(i, close + 1)));
        },
        RcOut::Failed { .. } => {},
    }
}

/// The hypotheses under which the rewriter copies everything through from
/// event `i` on: no feed title remains to be replaced, no privacy marking
/// is inserted, and every item keeps its bytes as [`lemma_item_step_verbatim`]
/// requires.
pub open spec fn faithful_span(events: Seq<GEvent>, i: int, map: Seq<ReplayedItem>) -> bool
    decreases events.len() - i,
        when i >= 0
{
    if i >= events.len() {
        true
    } else {
        match events[i] {
            GEvent::Open(v) => {
                if nm_item(spec_tag_name(v, 1)) {
                    match item_step(events, i, map) {
                        Option::Some(p) => {
                            proof {
                                lemma_item_step_next(events, i, map);
                            }
                            p.0 == serialize(events.subrange(i, p.1)) && faithful_span(
                                events,
                                p.1,
                                map,
                            )
                        },
                        Option::None => false,
                    }
                } else {
                    faithful_span(events, i + 1, map)
                }
            },
            _ => faithful_span(events, i + 1, map),
        }
    }
}

/// Once the title has been handled and with no privacy marking to insert,
/// a faithful span is copied through byte for byte.
/// Together with [`lemma_item_step_verbatim`] this says the rewriter's
/// output differs from its input only in the replaced title element (and
/// the inserted privacy marking, when asked for).
pub proof fn lemma_rewrite_faithful(
    events: Seq<GEvent>,
    i: int,
    map: Seq<ReplayedItem>,
    custom: Option<Seq<u8>>,
)
    requires
        0 <= i <= events.len(),
        faithful_span(events, i, map),
        forall|j: int|
            i <= j < events.len() && (#[trigger] events[j]) is Open ==> !nm_title(
                spec_tag_name(events[j]->Open_0, 1),
            ),
    ensures
        rw_from(events, i, false, map, false, custom) == Option::Some(
            serialize(events.subrange(i, events.len() as int)),
        ),
    decreases events.len() - i,
{
    if i >= events.len() {
        assert(events.subrange(i, events.len() as int).len() == 0);
    } else {
        match events[i] {
            GEvent::Open(v) => {
                let name = spec_tag_name(v, 1);
                if nm_item(name) {
                    lemma_item_step_next(events, i, map);
                    match item_step(events, i, map) {
                        Option::Some(p) => {
                            lemma_rewrite_faithful(events, p.1, map, custom);
                            lemma_serialize_split(events, i, p.1, events.len() as int);
                        },
                        Option::None => {},
                    }
                } else {
                    lemma_rewrite_faithful(events, i + 1, map, custom);
                    lemma_serialize_one(events, i);
                    lemma_serialize_split(events, i, i + 1, events.len() as int);
                    assert(v + serialize(events.subrange(i + 1, events.len() as int)) =~= serialize(
                        events.subrange(i, events.len() as int),
                    ));
                }
            },
            _ => {
                lemma_rewrite_faithful(events, i + 1, map, custom);
                lemma_serialize_one(events, i);
                lemma_serialize_split(events, i, i + 1, events.len() as int);
                assert(graw(events[i]) + serialize(events.subrange(i + 1, events.len() as int))
                    =~= serialize(events.subrange(i, events.len() as int)));
            },
        }
    }
}

} // verus!
