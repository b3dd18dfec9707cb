//! The pure decisions of the replay endpoint: entity-tag handling and the
//! before-fetch gate.  The composite entity tag `"<expires>|<upstream>"`
//! carries the next replay slot, letting the service answer a conditional
//! request without any upstream work while the slot has not arrived.

use vstd::prelude::*;

use crate::time::{parse_rfc3339, parsed_rfc3339, rfc3339_of, ts_in_range};
use crate::xml::{find_byte_spec, utf8_decode};
use vstd::string::StringSliceAdditionalSpecFns;
use vstd::utf8::encode_utf8;

verus! {

/// The query of the summary endpoint.
pub struct SummaryQuery {
    pub uri: String,
}

/// `W/` stripped from the front, when present.
pub open spec fn strip_weak(b: Seq<u8>) -> Seq<u8> {
    if b.len() >= 2 && b[0] == 87 && b[1] == 47 {
        b.skip(2)
    } else {
        b
    }
}

/// One optional quote stripped from each end.
pub open spec fn strip_quotes(b: Seq<u8>) -> Seq<u8> {
    let b1 = if b.len() >= 1 && b[0] == 34 {
        b.skip(1)
    } else {
        b
    };
    if b1.len() >= 1 && b1[b1.len() - 1] == 34 {
        b1.take(b1.len() - 1)
    } else {
        b1
    }
}

/// The payload of an entity tag: an optional weak prefix and one optional
/// quote on each side removed; what remains must be nonempty and free of
/// quotes, or the tag carries no payload.
pub open spec fn etag_payload(b: Seq<u8>) -> Option<Seq<u8>> {
    let p = strip_quotes(strip_weak(b));
    if p.len() >= 1 && (forall|k: int| 0 <= k < p.len() ==> p[k] != 34) {
        Option::Some(p)
    } else {
        Option::None
    }
}

/// The payload of an entity tag header value, as bytes.
fn extract_etag_bytes(inm: &str) -> (r: Option<Vec<u8>>)
    ensures
        match r {
            Option::Some(v) => etag_payload(inm.spec_bytes()) == Option::Some(v@),
            Option::None => etag_payload(inm.spec_bytes()) is None,
        },
{
    let b: &[u8] = inm.as_bytes();
    let n = b.len();
    let mut start: usize = 0;
    if n >= 2 && b[0] == 87 && b[1] == 47 {
        start = 2;
    }
    let ghost w = strip_weak(inm.spec_bytes());
    proof {
        assert(w =~= inm.spec_bytes().skip(start as int));
    }
    let mut end: usize = n;
    if end > start && b[start] == 34 {
        start = start + 1;
    }
    let ghost b1 = if w.len() >= 1 && w[0] == 34 {
        w.skip(1)
    } else {
        w
    };
    proof {
        assert(b1 =~= inm.spec_bytes().skip(start as int));
    }
    if end > start && b[end - 1] == 34 {
        end = end - 1;
    }
    let ghost p = strip_quotes(w);
    proof {
        assert(p =~= inm.spec_bytes().subrange(start as int, end as int));
    }
    if end <= start {
        proof {
            assert(p.len() == 0);
        }
        return None;
    }
    let mut out: Vec<u8> = Vec::new();
    let mut k = start;
    while k < end
        invariant
            start <= k <= end <= n,
            n == inm.spec_bytes().len(),
            b@ == inm.spec_bytes(),
            p == inm.spec_bytes().subrange(start as int, end as int),
            p == strip_quotes(strip_weak(inm.spec_bytes())),
            out@ =~= inm.spec_bytes().subrange(start as int, k as int),
            forall|q: int| start <= q < k ==> inm.spec_bytes()[q] != 34,
        decreases end - k,
    {
        if b[k] == 34 {
            proof {
                assert(p[k - start] == 34);
            }
            return None;
        }
        out.push(b[k]);
        k = k + 1;
    }
    proof {
        assert(out@ =~= p);
        assert(forall|q: int| 0 <= q < p.len() ==> p[q] != 34);
    }
    Some(out)
}

/// The payload of an entity tag header value, if it has one.
pub fn extract_etag_value(inm: &str) -> (r: Option<String>)
    ensures
        match r {
            Option::Some(s) => etag_payload(inm.spec_bytes()) is Some && s@ == utf8_decode(
                etag_payload(inm.spec_bytes()).unwrap(),
            ),
            Option::None => etag_payload(inm.spec_bytes()) is None,
        },
{
    match extract_etag_bytes(inm) {
        Option::Some(v) => Some(crate::xml::bytes_to_string(&v)),
        Option::None => None,
    }
}

/// What a composite entity tag says: the upstream entity tag, and the
/// expiry instant when the payload carries one before a `|` separator.
pub open spec fn spec_request_etag(b: Seq<u8>) -> (Option<Seq<u8>>, Option<i64>) {
    match etag_payload(b) {
        Option::None => (Option::None, Option::None),
        Option::Some(p) => {
            let bar = find_byte_spec(p, 0, 124);
            if bar >= p.len() {
                (Option::Some(p), Option::None)
            } else {
                (Option::Some(p.skip(bar + 1)), parsed_rfc3339(utf8_decode(p.take(bar))))
            }
        },
    }
}

/// Splits an `If-None-Match` value into the upstream entity tag to forward
/// and the expiry instant the client already holds.
pub fn parse_request_etag(inm: &str) -> (r: (Option<String>, Option<i64>))
    ensures
        ({
            let (etag, exp) = spec_request_etag(inm.spec_bytes());
            &&& (match r.0 {
                Option::Some(s) => etag is Some && s@ == utf8_decode(etag.unwrap()),
                Option::None => etag is None,
            })
            &&& r.1 == exp
        }),
{
    let payload = match extract_etag_bytes(inm) {
        Option::Some(v) => v,
        Option::None => {
            return (None, None);
        },
    };
    let ghost p = payload@;
    let n = payload.len();
    let mut bar: usize = 0;
    while bar < n && payload[bar] != 124
        invariant
            0 <= bar <= n,
            n == payload@.len(),
            p == payload@,
            find_byte_spec(p, 0, 124) == find_byte_spec(p, bar as int, 124),
        decreases n - bar,
    {
        bar = bar + 1;
    }
    proof {
        assert(find_byte_spec(p, 0, 124) == bar as int);
    }
    if bar >= n {
        return (Some(crate::xml::bytes_to_string(&payload)), None);
    }
    let left = crate::xml::copy_vec_range_pub(&payload, 0, bar);
    let right = crate::xml::copy_vec_range_pub(&payload, bar + 1, n);
    let left_s = crate::xml::bytes_to_string(&left);
    let exp = parse_rfc3339(left_s.as_str());
    proof {
        assert(left@ =~= p.take(bar as int));
        assert(right@ =~= p.skip(bar as int + 1));
    }
    (Some(crate::xml::bytes_to_string(&right)), exp)
}

/// The composite entity tag for a response: the next slot and the upstream
/// entity tag's payload, quoted; or just the quoted payload when no slot
/// is pending; or nothing when the upstream tag has no payload.
pub fn composite_etag(next_slot: Option<i64>, upstream_etag: &str) -> (r: Option<String>)
    requires
        match next_slot {
            Option::Some(ts) => ts_in_range(ts as int),
            Option::None => true,
        },
    ensures
        match etag_payload(upstream_etag.spec_bytes()) {
            Option::None => r is None,
            Option::Some(p) => r is Some && r.unwrap()@ == (match next_slot {
                Option::Some(ts) => "\""@ + rfc3339_of(ts as int) + "|"@ + utf8_decode(p)
                    + "\""@,
                Option::None => "\""@ + utf8_decode(p) + "\""@,
            }),
        },
{
    let payload = match extract_etag_value(upstream_etag) {
        Option::Some(s) => s,
        Option::None => {
            return None;
        },
    };
    let mut out = String::new();
    out.append("\"");
    match next_slot {
        Option::Some(ts) => {
            let dt = crate::time::format_rfc3339(ts);
            out.append(dt.as_str());
            out.append("|");
        },
        Option::None => {},
    }
    out.append(payload.as_str());
    out.append("\"");
    Some(out)
}

/// What the endpoint does before any upstream work.
#[derive(Debug)]
pub enum ReplayPlan {
    /// The requested `now` lies more than a year past the server clock.
    RejectNow,
    /// The client's expiry has not arrived: answer not-modified at once.
    NotModified,
    /// Fetch the upstream feed (conditionally).
    FetchUpstream,
}

/// The effective current instant of a request.
pub open spec fn effective_now(now_param: Option<i64>, clock_now: i64) -> i64 {
    match now_param {
        Option::Some(v) => v,
        Option::None => clock_now,
    }
}

/// Decides the replay request before any upstream work: a `now` more than
/// 365 whole days past the server clock is rejected; otherwise a client
/// expiry still in the future answers not-modified; otherwise the upstream
/// feed is fetched.
pub fn plan_replay(now_param: Option<i64>, clock_now: i64, request_expires: Option<i64>) -> (r:
    ReplayPlan)
    requires
        -9_000_000_000_000 <= clock_now <= 9_000_000_000_000,
        match now_param {
            Option::Some(v) => -9_000_000_000_000 <= v <= 9_000_000_000_000,
            Option::None => true,
        },
    ensures
        ({
            let now = effective_now(now_param, clock_now);
            if now > clock_now && (now - clock_now) / 86400 > 365 {
                r is RejectNow
            } else if request_expires is Some && now < request_expires.unwrap() {
                r is NotModified
            } else {
                r is FetchUpstream
            }
        }),
{
    let now = match now_param {
        Option::Some(v) => v,
        Option::None => clock_now,
    };
    if now > clock_now && (now - clock_now) / 86400 > 365 {
        return ReplayPlan::RejectNow;
    }
    match request_expires {
        Option::Some(e) => {
            if now < e {
                ReplayPlan::NotModified
            } else {
                ReplayPlan::FetchUpstream
            }
        },
        Option::None => ReplayPlan::FetchUpstream,
    }
}

/// What the endpoint does once the upstream fetch has answered.
pub enum FetchedPlan {
    /// The upstream said not-modified: answer the client not-modified too,
    /// with the headers of [`not_modified_headers`].
    PassThroughNotModified,
    /// Fresh bytes arrived: rebuild the replay from them.
    Rebuild,
}

/// Decides the response after the upstream fetch: an upstream not-modified
/// is passed through, anything else is rebuilt.
pub fn plan_fetched(upstream_not_modified: bool) -> (r: FetchedPlan)
    ensures
        upstream_not_modified <==> r is PassThroughNotModified,
{
    if upstream_not_modified {
        FetchedPlan::PassThroughNotModified
    } else {
        FetchedPlan::Rebuild
    }
}

/// The headers of a passed-through not-modified response: the expiry the
/// client already held (when it is an instant the calendar can render) and
/// the composite entity tag rebuilt from it and the upstream entity tag.
pub fn not_modified_headers(request_expires: Option<i64>, upstream_etag: &Option<String>) -> (r: (
    Option<String>,
    Option<String>,
))
    ensures
        ({
            let renderable = request_expires is Some && ts_in_range(request_expires.unwrap() as int);
            &&& (match r.0 {
                Option::Some(s) => renderable && s@ == crate::time::rfc2822_of(
                    request_expires.unwrap() as int,
                ),
                Option::None => !renderable,
            })
            &&& (match upstream_etag {
                Option::Some(t) => {
                    let next = if renderable {
                        request_expires
                    } else {
                        Option::<i64>::None
                    };
                    match etag_payload(encode_utf8(t@)) {
                        Option::None => r.1 is None,
                        Option::Some(p) => r.1 is Some && r.1.unwrap()@ == (match next {
                            Option::Some(ts) => "\""@ + rfc3339_of(ts as int) + "|"@
                                + utf8_decode(p) + "\""@,
                            Option::None => "\""@ + utf8_decode(p) + "\""@,
                        }),
                    }
                },
                Option::None => r.1 is None,
            })
        }),
{
    let expires = match request_expires {
        Option::Some(e) => {
            if crate::time::MIN_TS <= e && e <= crate::time::MAX_TS {
                Some(crate::time::format_rfc2822(e))
            } else {
                None
            }
        },
        Option::None => None,
    };
    let etag = match upstream_etag {
        Option::Some(t) => {
            let in_range = match request_expires {
                Option::Some(e) => crate::time::MIN_TS <= e && e <= crate::time::MAX_TS,
                Option::None => false,
            };
            if in_range {
                composite_etag(request_expires, t.as_str())
            } else {
                composite_etag(None, t.as_str())
            }
        },
        Option::None => None,
    };
    (expires, etag)
}

} // verus!
