//! A small pull-tokenizer for the XML shapes that syndication feeds use.
//!
//! Every event keeps the exact bytes it was read from, and tokenizing
//! guarantees that the concatenation of all event bytes is the input —
//! which is what lets the rewriter put a feed back together byte for byte
//! outside the places it deliberately changes.

use vstd::prelude::*;

verus! {

/// One XML event; the payload is always the exact input bytes the event
/// covers.
pub enum XmlEvent {
    /// `<name ...>`
    Open(Vec<u8>),
    /// `</name>`
    Close(Vec<u8>),
    /// `<name ... />`
    SelfClose(Vec<u8>),
    /// Character data between tags.
    Text(Vec<u8>),
    /// `<![CDATA[ ... ]]>`
    CData(Vec<u8>),
    /// `<!-- ... -->`
    Comment(Vec<u8>),
    /// `<? ... ?>`, the XML declaration or a processing instruction.
    Decl(Vec<u8>),
    /// `<! ... >`, a document type declaration.
    Doctype(Vec<u8>),
}

pub open spec fn raw_of(ev: XmlEvent) -> Seq<u8> {
    match ev {
        XmlEvent::Open(v) => v@,
        XmlEvent::Close(v) => v@,
        XmlEvent::SelfClose(v) => v@,
        XmlEvent::Text(v) => v@,
        XmlEvent::CData(v) => v@,
        XmlEvent::Comment(v) => v@,
        XmlEvent::Decl(v) => v@,
        XmlEvent::Doctype(v) => v@,
    }
}

/// An event as the specifications see it: the same shape, with the raw
/// bytes as a ghost sequence.  The deterministic tokenization below and the
/// parsing machines are stated over these.
pub ghost enum GEvent {
    Open(Seq<u8>),
    Close(Seq<u8>),
    SelfClose(Seq<u8>),
    Text(Seq<u8>),
    CData(Seq<u8>),
    Comment(Seq<u8>),
    Decl(Seq<u8>),
    Doctype(Seq<u8>),
}

pub open spec fn ev_view(ev: XmlEvent) -> GEvent {
    match ev {
        XmlEvent::Open(v) => GEvent::Open(v@),
        XmlEvent::Close(v) => GEvent::Close(v@),
        XmlEvent::SelfClose(v) => GEvent::SelfClose(v@),
        XmlEvent::Text(v) => GEvent::Text(v@),
        XmlEvent::CData(v) => GEvent::CData(v@),
        XmlEvent::Comment(v) => GEvent::Comment(v@),
        XmlEvent::Decl(v) => GEvent::Decl(v@),
        XmlEvent::Doctype(v) => GEvent::Doctype(v@),
    }
}

pub open spec fn events_view(evs: Seq<XmlEvent>) -> Seq<GEvent> {
    evs.map_values(|e: XmlEvent| ev_view(e))
}

pub open spec fn graw(ev: GEvent) -> Seq<u8> {
    match ev {
        GEvent::Open(v) => v,
        GEvent::Close(v) => v,
        GEvent::SelfClose(v) => v,
        GEvent::Text(v) => v,
        GEvent::CData(v) => v,
        GEvent::Comment(v) => v,
        GEvent::Decl(v) => v,
        GEvent::Doctype(v) => v,
    }
}

/// The bytes a sequence of events covers, in order.
pub open spec fn serialize(evs: Seq<GEvent>) -> Seq<u8>
    decreases evs.len(),
{
    if evs.len() == 0 {
        Seq::empty()
    } else {
        serialize(evs.drop_last()) + graw(evs.last())
    }
}

pub open spec fn is_ws(b: u8) -> bool {
    b == 32 || b == 9 || b == 10 || b == 13
}

/// Where a tag name ends: the first whitespace, `/` or `>` at or after `i`.
pub open spec fn name_end(raw: Seq<u8>, i: int) -> int
    decreases raw.len() - i,
{
    if i < 0 || i >= raw.len() {
        raw.len() as int
    } else if is_ws(raw[i]) || raw[i] == 47 || raw[i] == 62 {
        i
    } else {
        name_end(raw, i + 1)
    }
}

/// The element name inside a tag's raw bytes, starting at `from` (1 for an
/// opening tag, 2 for a closing tag).
pub open spec fn spec_tag_name(raw: Seq<u8>, from: int) -> Seq<u8> {
    raw.subrange(if from <= raw.len() {
        from
    } else {
        raw.len() as int
    }, name_end(raw, from))
}

proof fn lemma_name_end(raw: Seq<u8>, i: int)
    requires
        0 <= i <= raw.len(),
    ensures
        i <= name_end(raw, i) <= raw.len(),
    decreases raw.len() - i,
{
    if i < raw.len() && !(is_ws(raw[i]) || raw[i] == 47 || raw[i] == 62) {
        lemma_name_end(raw, i + 1);
    }
}

/// The element name of a tag event, read from its raw bytes.
pub fn tag_name(raw: &Vec<u8>, from: usize) -> (r: Vec<u8>)
    requires
        from <= raw@.len(),
    ensures
        r@ == spec_tag_name(raw@, from as int),
{
    proof {
        lemma_name_end(raw@, from as int);
    }
    let n = raw.len();
    let mut j = from;
    while j < n && !(raw[j] == 32 || raw[j] == 9 || raw[j] == 10 || raw[j] == 13 || raw[j] == 47
        || raw[j] == 62)
        invariant
            from <= j <= n,
            n == raw@.len(),
            name_end(raw@, from as int) == name_end(raw@, j as int),
        decreases n - j,
    {
        j = j + 1;
    }
    let mut r: Vec<u8> = Vec::new();
    let mut k = from;
    while k < j
        invariant
            from <= k <= j <= n,
            n == raw@.len(),
            r@ =~= raw@.subrange(from as int, k as int),
        decreases j - k,
    {
        r.push(raw[k]);
        k = k + 1;
    }
    proof {
        assert(name_end(raw@, from as int) == j as int);
        assert(r@ =~= spec_tag_name(raw@, from as int));
    }
    r
}

/// Why tokenizing stopped short of the end.
pub enum XmlError {
    /// A construct opened with `<` never closes.
    Truncated,
}

/// A classification every tokenized event satisfies, over its raw bytes.
pub open spec fn wf_event(ev: XmlEvent) -> bool {
    match ev {
        XmlEvent::Text(v) => v@.len() > 0 && (forall|i: int|
            0 <= i < v@.len() ==> v@[i] != 60),
        XmlEvent::Open(v) => v@.len() >= 2 && v@[0] == 60 && v@[v@.len() - 1] == 62,
        XmlEvent::SelfClose(v) => v@.len() >= 3 && v@[0] == 60 && v@[v@.len() - 1] == 62
            && v@[v@.len() - 2] == 47,
        XmlEvent::Close(v) => v@.len() >= 3 && v@[0] == 60 && v@[1] == 47 && v@[v@.len() - 1]
            == 62,
        XmlEvent::CData(v) => v@.len() >= 12,
        XmlEvent::Comment(v) => v@.len() >= 4,
        XmlEvent::Decl(v) => v@.len() >= 2 && v@[0] == 60 && v@[1] == 63,
        XmlEvent::Doctype(v) => v@.len() >= 2 && v@[0] == 60 && v@[1] == 33,
    }
}

proof fn lemma_serialize_push(evs: Seq<GEvent>, ev: GEvent)
    ensures
        serialize(evs.push(ev)) == serialize(evs) + graw(ev),
{
    assert(evs.push(ev).drop_last() =~= evs);
    assert(evs.push(ev).last() == ev);
}

proof fn lemma_events_view_push(evs: Seq<XmlEvent>, ev: XmlEvent)
    ensures
        events_view(evs.push(ev)) == events_view(evs).push(ev_view(ev)),
{
    assert(events_view(evs.push(ev)) =~= events_view(evs).push(ev_view(ev)));
}

/// Copies `input[from..to]` into a fresh vector.
fn copy_range(input: &[u8], from: usize, to: usize) -> (r: Vec<u8>)
    requires
        from <= to <= input@.len(),
    ensures
        r@ == input@.subrange(from as int, to as int),
{
    let mut r: Vec<u8> = Vec::new();
    let mut k = from;
    while k < to
        invariant
            from <= k <= to <= input@.len(),
            r@ =~= input@.subrange(from as int, k as int),
        decreases to - k,
    {
        r.push(input[k]);
        k = k + 1;
    }
    proof {
        assert(r@ =~= input@.subrange(from as int, to as int));
    }
    r
}

/// First position at or after `i` where `pat` occurs whole; the input
/// length when it never does.
pub open spec fn find_seq(input: Seq<u8>, i: int, pat: Seq<u8>) -> int
    decreases input.len() - i,
{
    if i < 0 || i >= input.len() {
        input.len() as int
    } else if i + pat.len() <= input.len() && input.subrange(i, i + pat.len()) == pat {
        i
    } else {
        find_seq(input, i + 1, pat)
    }
}

pub proof fn lemma_find_seq_bounds(input: Seq<u8>, i: int, pat: Seq<u8>)
    requires
        0 <= i <= input.len(),
    ensures
        i <= find_seq(input, i, pat) <= input.len(),
        find_seq(input, i, pat) < input.len() ==> find_seq(input, i, pat) + pat.len()
            <= input.len() && input.subrange(
            find_seq(input, i, pat),
            find_seq(input, i, pat) + pat.len(),
        ) == pat,
    decreases input.len() - i,
{
    if i < input.len() && !(i + pat.len() <= input.len() && input.subrange(i, i + pat.len())
        == pat) {
        lemma_find_seq_bounds(input, i + 1, pat);
    }
}

/// First position at or after `from` where `pat` occurs, if any; equal to
/// [`find_seq`].
fn find_sub(input: &[u8], from: usize, pat: &[u8]) -> (r: Option<usize>)
    requires
        pat@.len() >= 1,
        from <= input@.len(),
    ensures
        match r {
            Option::Some(i) => from <= i && i as int == find_seq(input@, from as int, pat@)
                && i < input@.len() && i + pat@.len() <= input@.len() && input@.subrange(
                i as int,
                i + pat@.len(),
            ) == pat@,
            Option::None => find_seq(input@, from as int, pat@) == input@.len(),
        },
{
    proof {
        lemma_find_seq_bounds(input@, from as int, pat@);
    }
    let n = input.len();
    let m = pat.len();
    let mut i = from;
    while i < n
        invariant
            from <= i <= n,
            m >= 1,
            n == input@.len(),
            m == pat@.len(),
            find_seq(input@, from as int, pat@) == find_seq(input@, i as int, pat@),
        decreases n - i,
    {
        let mut k: usize = 0;
        let mut ok = n - i >= m;
        while k < m
            invariant
                0 <= k <= m,
                i < n,
                n == input@.len(),
                m == pat@.len(),
                ok == (i + m <= n && forall|q: int| 0 <= q < k ==> input@[i + q] == pat@[q]),
            decreases m - k,
        {
            if ok && input[i + k] != pat[k] {
                ok = false;
            }
            k = k + 1;
        }
        if ok {
            proof {
                assert(input@.subrange(i as int, i + pat@.len()) =~= pat@);
            }
            return Some(i);
        }
        proof {
            if i + pat@.len() <= input@.len() {
                assert(input@.subrange(i as int, i + pat@.len()) != pat@) by {
                    if input@.subrange(i as int, i + pat@.len()) == pat@ {
                        assert(forall|q: int|
                            0 <= q < pat@.len() ==> input@[i + q] == #[trigger] pat@[q]);
                    }
                }
            }
        }
        i = i + 1;
    }
    None
}

/// First `>` at or after `i` that is outside quoted attribute values
/// (tracking the open quote, if any); the input length when none follows.
pub open spec fn tag_end_at(input: Seq<u8>, i: int, quote: u8) -> int
    decreases input.len() - i,
{
    if i < 0 || i >= input.len() {
        input.len() as int
    } else if quote == 0 {
        if input[i] == 62 {
            i
        } else if input[i] == 34 || input[i] == 39 {
            tag_end_at(input, i + 1, input[i])
        } else {
            tag_end_at(input, i + 1, 0)
        }
    } else if input[i] == quote {
        tag_end_at(input, i + 1, 0)
    } else {
        tag_end_at(input, i + 1, quote)
    }
}

pub proof fn lemma_tag_end_bounds(input: Seq<u8>, i: int, quote: u8)
    requires
        0 <= i <= input.len(),
    ensures
        i <= tag_end_at(input, i, quote) <= input.len(),
        tag_end_at(input, i, quote) < input.len() ==> input[tag_end_at(input, i, quote)] == 62,
    decreases input.len() - i,
{
    if i < input.len() {
        if quote == 0 {
            if input[i] != 62 {
                if input[i] == 34 || input[i] == 39 {
                    lemma_tag_end_bounds(input, i + 1, input[i]);
                } else {
                    lemma_tag_end_bounds(input, i + 1, 0);
                }
            }
        } else if input[i] == quote {
            lemma_tag_end_bounds(input, i + 1, 0);
        } else {
            lemma_tag_end_bounds(input, i + 1, quote);
        }
    }
}

/// First `>` at or after `from` that is outside quoted attribute values;
/// equal to [`tag_end_at`].
fn find_tag_end(input: &[u8], from: usize) -> (r: Option<usize>)
    requires
        from <= input@.len(),
    ensures
        match r {
            Option::Some(i) => from <= i && i as int == tag_end_at(input@, from as int, 0)
                && i < input@.len() && input@[i as int] == 62,
            Option::None => tag_end_at(input@, from as int, 0) == input@.len(),
        },
{
    let n = input.len();
    let mut i = from;
    let mut quote: u8 = 0;
    while i < n
        invariant
            from <= i <= n,
            n == input@.len(),
            tag_end_at(input@, from as int, 0) == tag_end_at(input@, i as int, quote),
        decreases n - i,
    {
        let b = input[i];
        if quote == 0 {
            if b == 62 {
                return Some(i);
            }
            if b == 34 || b == 39 {
                quote = b;
            }
        } else if b == quote {
            quote = 0;
        }
        i = i + 1;
    }
    None
}

/// Feeds the per-event result into the rest of a tokenization.
pub open spec fn cons_ev(ev: GEvent, rest: Option<Seq<GEvent>>) -> Option<Seq<GEvent>> {
    match rest {
        Option::Some(r) => Option::Some(seq![ev] + r),
        Option::None => Option::None,
    }
}

/// The deterministic tokenization of `input` from byte `pos` on: exactly
/// the event split [`tokenize`] produces, or nothing when a construct
/// opened with `<` never closes.
pub open spec fn spec_tokenize_from(input: Seq<u8>, pos: int) -> Option<Seq<GEvent>>
    decreases input.len() - pos,
        when 0 <= pos
{
    if pos >= input.len() {
        Option::Some(Seq::empty())
    } else if input[pos] == 60 {
        if input.len() - pos > 3 && input[pos + 1] == 33 && input[pos + 2] == 45 && input[pos
            + 3] == 45 {
            let e = find_seq(input, pos + 4, seq![45u8, 45u8, 62u8]);
            if e >= input.len() {
                Option::None
            } else {
                proof {
                    lemma_find_seq_bounds(input, pos + 4, seq![45u8, 45u8, 62u8]);
                }
                cons_ev(
                    GEvent::Comment(input.subrange(pos, e + 3)),
                    spec_tokenize_from(input, e + 3),
                )
            }
        } else if input.len() - pos > 8 && input[pos + 1] == 33 && input[pos + 2] == 91
            && input[pos + 3] == 67 && input[pos + 4] == 68 && input[pos + 5] == 65 && input[pos
            + 6] == 84 && input[pos + 7] == 65 && input[pos + 8] == 91 {
            let e = find_seq(input, pos + 9, seq![93u8, 93u8, 62u8]);
            if e >= input.len() {
                Option::None
            } else {
                proof {
                    lemma_find_seq_bounds(input, pos + 9, seq![93u8, 93u8, 62u8]);
                }
                cons_ev(
                    GEvent::CData(input.subrange(pos, e + 3)),
                    spec_tokenize_from(input, e + 3),
                )
            }
        } else if input.len() - pos > 1 && input[pos + 1] == 33 {
            let g = tag_end_at(input, pos + 2, 0);
            if g >= input.len() {
                Option::None
            } else {
                proof {
                    lemma_tag_end_bounds(input, pos + 2, 0);
                }
                cons_ev(
                    GEvent::Doctype(input.subrange(pos, g + 1)),
                    spec_tokenize_from(input, g + 1),
                )
            }
        } else if input.len() - pos > 1 && input[pos + 1] == 63 {
            let e = find_seq(input, pos + 2, seq![63u8, 62u8]);
            if e >= input.len() {
                Option::None
            } else {
                proof {
                    lemma_find_seq_bounds(input, pos + 2, seq![63u8, 62u8]);
                }
                cons_ev(
                    GEvent::Decl(input.subrange(pos, e + 2)),
                    spec_tokenize_from(input, e + 2),
                )
            }
        } else if input.len() - pos > 1 && input[pos + 1] == 47 {
            let g = tag_end_at(input, pos + 2, 0);
            if g >= input.len() {
                Option::None
            } else {
                proof {
                    lemma_tag_end_bounds(input, pos + 2, 0);
                }
                cons_ev(
                    GEvent::Close(input.subrange(pos, g + 1)),
                    spec_tokenize_from(input, g + 1),
                )
            }
        } else {
            let g = tag_end_at(input, pos + 1, 0);
            if g >= input.len() {
                Option::None
            } else {
                proof {
                    lemma_tag_end_bounds(input, pos + 1, 0);
                }
                if g >= 1 && input[g - 1] == 47 && g - 1 >= pos + 1 {
                    cons_ev(
                        GEvent::SelfClose(input.subrange(pos, g + 1)),
                        spec_tokenize_from(input, g + 1),
                    )
                } else {
                    cons_ev(
                        GEvent::Open(input.subrange(pos, g + 1)),
                        spec_tokenize_from(input, g + 1),
                    )
                }
            }
        }
    } else {
        let j = find_byte_spec(input, pos, 60);
        proof {
            lemma_find_byte_bounds(input, pos, 60);
            lemma_find_byte_bounds(input, pos + 1, 60);
            assert(find_byte_spec(input, pos, 60) == find_byte_spec(input, pos + 1, 60));
        }
        cons_ev(GEvent::Text(input.subrange(pos, j)), spec_tokenize_from(input, j))
    }
}

/// Splits a whole document into events, exactly as [`spec_tokenize_from`]
/// says: it succeeds if and only if the deterministic tokenization does,
/// with that event split; on success the events cover the input exactly
/// (concatenating their raw bytes gives the input back) and every event
/// matches its classification.
#[verifier::spinoff_prover]
#[verifier::rlimit(100)]
pub fn tokenize(input: &[u8]) -> (r: Result<Vec<XmlEvent>, XmlError>)
    ensures
        match r {
            Result::Ok(evs) => {
                &&& spec_tokenize_from(input@, 0) == Option::Some(events_view(evs@))
                &&& serialize(events_view(evs@)) == input@
                &&& (forall|i: int| 0 <= i < evs@.len() ==> wf_event(#[trigger] evs@[i]))
            },
            Result::Err(_) => spec_tokenize_from(input@, 0) is None,
        },
{
    let n = input.len();
    let mut evs: Vec<XmlEvent> = Vec::new();
    let mut pos: usize = 0;
    proof {
        assert(events_view(Seq::<XmlEvent>::empty()) =~= Seq::<GEvent>::empty());
        assert(Seq::<GEvent>::empty() + spec_tokenize_from(input@, 0).unwrap()
            =~= spec_tokenize_from(input@, 0).unwrap()) by {
        }
    }
    while pos < n
        invariant
            0 <= pos <= n,
            n == input@.len(),
            serialize(events_view(evs@)) == input@.subrange(0, pos as int),
            forall|i: int| 0 <= i < evs@.len() ==> wf_event(#[trigger] evs@[i]),
            spec_tokenize_from(input@, 0) == (match spec_tokenize_from(input@, pos as int) {
                Option::Some(rest) => Option::Some(events_view(evs@) + rest),
                Option::None => Option::<Seq<GEvent>>::None,
            }),
        decreases n - pos,
    {
        let ghost evs_old = evs@;
        let start = pos;
        if input[pos] == 60 {
            // Some sort of markup.
            let ev: XmlEvent;
            let next: usize;
            if n - pos > 3 && input[pos + 1] == 33 && input[pos + 2] == 45 && input[pos + 3]
                == 45 {
                // Comment.
                let pat: &[u8] = &[45, 45, 62];
                proof {
                    assert(pat@ =~= seq![45u8, 45u8, 62u8]);
                }
                match find_sub(input, pos + 4, pat) {
                    Option::Some(i) => {
                        next = i + 3;
                        ev = XmlEvent::Comment(copy_range(input, pos, next));
                    },
                    Option::None => {
                        return Err(XmlError::Truncated);
                    },
                }
            } else if n - pos > 8 && input[pos + 1] == 33 && input[pos + 2] == 91 && input[pos
                + 3] == 67 && input[pos + 4] == 68 && input[pos + 5] == 65 && input[pos + 6]
                == 84 && input[pos + 7] == 65 && input[pos + 8] == 91 {
                // CDATA section.
                let pat: &[u8] = &[93, 93, 62];
                proof {
                    assert(pat@ =~= seq![93u8, 93u8, 62u8]);
                }
                match find_sub(input, pos + 9, pat) {
                    Option::Some(i) => {
                        next = i + 3;
                        ev = XmlEvent::CData(copy_range(input, pos, next));
                    },
                    Option::None => {
                        return Err(XmlError::Truncated);
                    },
                }
            } else if n - pos > 1 && input[pos + 1] == 33 {
                // Document type declaration.
                match find_tag_end(input, pos + 2) {
                    Option::Some(i) => {
                        next = i + 1;
                        ev = XmlEvent::Doctype(copy_range(input, pos, next));
                    },
                    Option::None => {
                        return Err(XmlError::Truncated);
                    },
                }
            } else if n - pos > 1 && input[pos + 1] == 63 {
                // Declaration or processing instruction.
                let pat: &[u8] = &[63, 62];
                proof {
                    assert(pat@ =~= seq![63u8, 62u8]);
                }
                match find_sub(input, pos + 2, pat) {
                    Option::Some(i) => {
                        next = i + 2;
                        ev = XmlEvent::Decl(copy_range(input, pos, next));
                    },
                    Option::None => {
                        return Err(XmlError::Truncated);
                    },
                }
            } else if n - pos > 1 && input[pos + 1] == 47 {
                // Closing tag.
                match find_tag_end(input, pos + 2) {
                    Option::Some(i) => {
                        next = i + 1;
                        ev = XmlEvent::Close(copy_range(input, pos, next));
                    },
                    Option::None => {
                        return Err(XmlError::Truncated);
                    },
                }
            } else {
                // Opening or self-closing tag.
                match find_tag_end(input, pos + 1) {
                    Option::Some(i) => {
                        next = i + 1;
                        let raw = copy_range(input, pos, next);
                        if i >= 1 && input[i - 1] == 47 && i - 1 >= pos + 1 {
                            ev = XmlEvent::SelfClose(raw);
                        } else {
                            ev = XmlEvent::Open(raw);
                        }
                    },
                    Option::None => {
                        return Err(XmlError::Truncated);
                    },
                }
            }
            proof {
                assert(spec_tokenize_from(input@, start as int) == cons_ev(
                    ev_view(ev),
                    spec_tokenize_from(input@, next as int),
                ));
                lemma_events_view_push(evs_old, ev);
                lemma_serialize_push(events_view(evs_old), ev_view(ev));
            }
            evs.push(ev);
            pos = next;
            proof {
                assert(serialize(events_view(evs@)) =~= input@.subrange(0, pos as int));
                match spec_tokenize_from(input@, pos as int) {
                    Option::Some(rest) => {
                        assert(events_view(evs_old) + (seq![ev_view(ev)] + rest) =~= events_view(
                            evs@,
                        ) + rest);
                    },
                    Option::None => {},
                }
            }
        } else {
            // Character data: up to the next `<` or the end of input.
            proof {
                lemma_find_byte_bounds(input@, pos as int, 60);
            }
            let mut j = pos;
            while j < n && input[j] != 60
                invariant
                    pos <= j <= n,
                    n == input@.len(),
                    find_byte_spec(input@, pos as int, 60) == find_byte_spec(input@, j as int, 60),
                    forall|q: int| pos <= q < j ==> input@[q] != 60,
                decreases n - j,
            {
                j = j + 1;
            }
            proof {
                assert(find_byte_spec(input@, pos as int, 60) == j as int);
            }
            let ev = XmlEvent::Text(copy_range(input, pos, j));
            proof {
                assert(spec_tokenize_from(input@, start as int) == cons_ev(
                    ev_view(ev),
                    spec_tokenize_from(input@, j as int),
                ));
                lemma_events_view_push(evs_old, ev);
                lemma_serialize_push(events_view(evs_old), ev_view(ev));
            }
            evs.push(ev);
            pos = j;
            proof {
                assert(serialize(events_view(evs@)) =~= input@.subrange(0, pos as int));
                match spec_tokenize_from(input@, pos as int) {
                    Option::Some(rest) => {
                        assert(events_view(evs_old) + (seq![ev_view(ev)] + rest) =~= events_view(
                            evs@,
                        ) + rest);
                    },
                    Option::None => {},
                }
            }
        }
    }
    proof {
        assert(input@.subrange(0, n as int) =~= input@);
        assert(spec_tokenize_from(input@, n as int) == Option::Some(Seq::<GEvent>::empty()));
        assert(events_view(evs@) + Seq::<GEvent>::empty() =~= events_view(evs@));
    }
    Ok(evs)
}

// ------------------------------------------------------------------
// Attributes.
// ------------------------------------------------------------------

/// First non-whitespace position at or after `i`.
pub open spec fn skip_ws(raw: Seq<u8>, i: int) -> int
    decreases raw.len() - i,
{
    if i < 0 || i >= raw.len() {
        raw.len() as int
    } else if is_ws(raw[i]) {
        skip_ws(raw, i + 1)
    } else {
        i
    }
}

/// Where an attribute key ends: the first whitespace, `=`, `/` or `>`.
pub open spec fn key_end(raw: Seq<u8>, i: int) -> int
    decreases raw.len() - i,
{
    if i < 0 || i >= raw.len() {
        raw.len() as int
    } else if is_ws(raw[i]) || raw[i] == 61 || raw[i] == 47 || raw[i] == 62 {
        i
    } else {
        key_end(raw, i + 1)
    }
}

/// First position at or after `i` holding byte `q`.
pub open spec fn find_byte_spec(raw: Seq<u8>, i: int, q: u8) -> int
    decreases raw.len() - i,
{
    if i < 0 || i >= raw.len() {
        raw.len() as int
    } else if raw[i] == q {
        i
    } else {
        find_byte_spec(raw, i + 1, q)
    }
}

pub proof fn lemma_scan_bounds(raw: Seq<u8>, i: int)
    requires
        0 <= i <= raw.len(),
    ensures
        i <= skip_ws(raw, i) <= raw.len(),
        i <= key_end(raw, i) <= raw.len(),
    decreases raw.len() - i,
{
    if i < raw.len() {
        lemma_scan_bounds(raw, i + 1);
    }
}

pub proof fn lemma_find_byte_bounds(raw: Seq<u8>, i: int, q: u8)
    requires
        0 <= i <= raw.len(),
    ensures
        i <= find_byte_spec(raw, i, q) <= raw.len(),
    decreases raw.len() - i,
{
    if i < raw.len() && raw[i] != q {
        lemma_find_byte_bounds(raw, i + 1, q);
    }
}

/// The attribute list of a tag's raw bytes, scanning from position `i`:
/// `key="value"` pairs in order, stopping at the tag end or at the first
/// shape the scanner does not recognize.
pub open spec fn attrs_from(raw: Seq<u8>, i: int) -> Seq<(Seq<u8>, Seq<u8>)>
    decreases raw.len() - i,
{
    let j = if i < 0 {
        0
    } else {
        skip_ws(raw, i)
    };
    if j >= raw.len() || raw[j] == 62 || raw[j] == 47 {
        Seq::empty()
    } else {
        let ke = key_end(raw, j);
        let eq = skip_ws(raw, ke);
        if eq >= raw.len() || raw[eq] != 61 {
            Seq::empty()
        } else {
            let vq = skip_ws(raw, eq + 1);
            if vq >= raw.len() || (raw[vq] != 34 && raw[vq] != 39) {
                Seq::empty()
            } else {
                let ve = find_byte_spec(raw, vq + 1, raw[vq]);
                if ve >= raw.len() {
                    Seq::empty()
                } else {
                    proof {
                        if 0 <= i <= raw.len() {
                            lemma_scan_bounds(raw, i);
                        }
                        lemma_scan_bounds(raw, j);
                        lemma_scan_bounds(raw, ke);
                        lemma_scan_bounds(raw, eq + 1);
                        lemma_find_byte_bounds(raw, vq + 1, raw[vq]);
                    }
                    seq![(raw.subrange(j, ke), raw.subrange(vq + 1, ve))] + attrs_from(
                        raw,
                        ve + 1,
                    )
                }
            }
        }
    }
}

/// Exec scan of one byte.
fn scan_skip_ws(raw: &Vec<u8>, i: usize) -> (r: usize)
    requires
        i <= raw@.len(),
    ensures
        r as int == skip_ws(raw@, i as int),
        i <= r <= raw@.len(),
{
    proof {
        lemma_scan_bounds(raw@, i as int);
    }
    let n = raw.len();
    let mut j = i;
    while j < n && (raw[j] == 32 || raw[j] == 9 || raw[j] == 10 || raw[j] == 13)
        invariant
            i <= j <= n,
            n == raw@.len(),
            skip_ws(raw@, i as int) == skip_ws(raw@, j as int),
        decreases n - j,
    {
        j = j + 1;
    }
    j
}

fn scan_key_end(raw: &Vec<u8>, i: usize) -> (r: usize)
    requires
        i <= raw@.len(),
    ensures
        r as int == key_end(raw@, i as int),
        i <= r <= raw@.len(),
{
    proof {
        lemma_scan_bounds(raw@, i as int);
    }
    let n = raw.len();
    let mut j = i;
    while j < n && !(raw[j] == 32 || raw[j] == 9 || raw[j] == 10 || raw[j] == 13 || raw[j] == 61
        || raw[j] == 47 || raw[j] == 62)
        invariant
            i <= j <= n,
            n == raw@.len(),
            key_end(raw@, i as int) == key_end(raw@, j as int),
        decreases n - j,
    {
        j = j + 1;
    }
    j
}

fn scan_find_byte(raw: &Vec<u8>, i: usize, q: u8) -> (r: usize)
    requires
        i <= raw@.len(),
    ensures
        r as int == find_byte_spec(raw@, i as int, q),
        i <= r <= raw@.len(),
{
    proof {
        lemma_find_byte_bounds(raw@, i as int, q);
    }
    let n = raw.len();
    let mut j = i;
    while j < n && raw[j] != q
        invariant
            i <= j <= n,
            n == raw@.len(),
            find_byte_spec(raw@, i as int, q) == find_byte_spec(raw@, j as int, q),
        decreases n - j,
    {
        j = j + 1;
    }
    j
}

/// Copies `raw[from..to]`.
fn copy_vec_range(raw: &Vec<u8>, from: usize, to: usize) -> (r: Vec<u8>)
    requires
        from <= to <= raw@.len(),
    ensures
        r@ == raw@.subrange(from as int, to as int),
{
    let mut r: Vec<u8> = Vec::new();
    let mut k = from;
    while k < to
        invariant
            from <= k <= to <= raw@.len(),
            r@ =~= raw@.subrange(from as int, k as int),
        decreases to - k,
    {
        r.push(raw[k]);
        k = k + 1;
    }
    proof {
        assert(r@ =~= raw@.subrange(from as int, to as int));
    }
    r
}

/// The ghost view of an attribute list.
pub open spec fn attrs_view(s: Seq<(Vec<u8>, Vec<u8>)>) -> Seq<(Seq<u8>, Seq<u8>)> {
    s.map_values(|p: (Vec<u8>, Vec<u8>)| (p.0@, p.1@))
}

/// All `key="value"` pairs of a tag, in order of appearance.
pub fn tag_attrs(raw: &Vec<u8>) -> (r: Vec<(Vec<u8>, Vec<u8>)>)
    requires
        raw@.len() >= 1,
    ensures
        attrs_view(r@) == attrs_from(raw@, name_end(raw@, 1)),
{
    proof {
        lemma_name_end(raw@, 1);
    }
    let n = raw.len();
    let mut i: usize = {
        let mut j: usize = 1;
        while j < n && !(raw[j] == 32 || raw[j] == 9 || raw[j] == 10 || raw[j] == 13 || raw[j]
            == 47 || raw[j] == 62)
            invariant
                1 <= j <= n,
                n == raw@.len(),
                name_end(raw@, 1) == name_end(raw@, j as int),
            decreases n - j,
        {
            j = j + 1;
        }
        j
    };
    proof {
        assert(i as int == name_end(raw@, 1));
    }
    let ghost start = i as int;
    proof {
        assert(attrs_from(raw@, start) =~= Seq::<(Seq<u8>, Seq<u8>)>::empty() + attrs_from(
            raw@,
            start,
        ));
    }
    let mut r: Vec<(Vec<u8>, Vec<u8>)> = Vec::new();
    loop
        invariant
            i <= n,
            n == raw@.len(),
            start == name_end(raw@, 1),
            attrs_from(raw@, start) == attrs_view(r@) + attrs_from(raw@, i as int),
        decreases n - i,
    {
        let ghost r_view = attrs_view(r@);
        let j = scan_skip_ws(raw, i);
        if j >= n || raw[j] == 62 || raw[j] == 47 {
            proof {
                assert(attrs_from(raw@, i as int).len() == 0);
                assert(attrs_from(raw@, start) =~= r_view);
            }
            return r;
        }
        let ke = scan_key_end(raw, j);
        let eq = scan_skip_ws(raw, ke);
        if eq >= n || raw[eq] != 61 {
            proof {
                assert(attrs_from(raw@, i as int).len() == 0);
                assert(attrs_from(raw@, start) =~= r_view);
            }
            return r;
        }
        let vq = scan_skip_ws(raw, eq + 1);
        if vq >= n || (raw[vq] != 34 && raw[vq] != 39) {
            proof {
                assert(attrs_from(raw@, i as int).len() == 0);
                assert(attrs_from(raw@, start) =~= r_view);
            }
            return r;
        }
        let ve = scan_find_byte(raw, vq + 1, raw[vq]);
        if ve >= n {
            proof {
                assert(attrs_from(raw@, i as int).len() == 0);
                assert(attrs_from(raw@, start) =~= r_view);
            }
            return r;
        }
        let key = copy_vec_range(raw, j, ke);
        let val = copy_vec_range(raw, vq + 1, ve);
        r.push((key, val));
        proof {
            assert(attrs_view(r@) =~= r_view + seq![
                (raw@.subrange(j as int, ke as int), raw@.subrange(vq as int + 1, ve as int)),
            ]);
            assert(attrs_from(raw@, start) =~= attrs_view(r@) + attrs_from(
                raw@,
                ve as int + 1,
            ));
        }
        i = ve + 1;
    }
}

// ------------------------------------------------------------------
// Text handling: entities, trimming, character counting.
// ------------------------------------------------------------------

/// What one entity between `&` and `;` stands for.  The five named XML
/// entities and decimal or hexadecimal character references (as UTF-8
/// bytes) are resolved; anything else is treated as malformed.
pub open spec fn spec_entity(e: Seq<u8>) -> Option<Seq<u8>> {
    if e =~= seq![97u8, 109u8, 112u8] {  // amp
        Option::Some(seq![38u8])
    } else if e =~= seq![108u8, 116u8] {  // lt
        Option::Some(seq![60u8])
    } else if e =~= seq![103u8, 116u8] {  // gt
        Option::Some(seq![62u8])
    } else if e =~= seq![97u8, 112u8, 111u8, 115u8] {  // apos
        Option::Some(seq![39u8])
    } else if e =~= seq![113u8, 117u8, 111u8, 116u8] {  // quot
        Option::Some(seq![34u8])
    } else if e.len() >= 2 && e[0] == 35 {  // numeric reference
        spec_charref(e.skip(1))
    } else {
        Option::None
    }
}

/// Value of one reference digit in the given base, or a poison below zero.
pub open spec fn ref_digit(b: u8, hex: bool) -> int {
    if 48 <= b <= 57 {
        b - 48
    } else if hex && 97 <= b <= 102 {
        b - 87
    } else if hex && 65 <= b <= 70 {
        b - 55
    } else {
        -1
    }
}

/// Value of a digit run in the given base; poisoned by any bad digit.
pub open spec fn ref_value(d: Seq<u8>, hex: bool) -> int
    decreases d.len(),
{
    if d.len() == 0 {
        0
    } else if ref_digit(d[d.len() - 1], hex) < 0 {
        -1000000000
    } else {
        let rest = ref_value(d.take(d.len() - 1), hex);
        if rest < 0 {
            rest
        } else {
            rest * (if hex {
                16int
            } else {
                10int
            }) + ref_digit(d[d.len() - 1], hex)
        }
    }
}

/// A Unicode scalar value: any code point outside the surrogate range.
pub open spec fn valid_scalar(v: int) -> bool {
    0 <= v <= 0x10FFFF && !(0xD800 <= v <= 0xDFFF)
}

/// The UTF-8 encoding of one scalar value.
pub open spec fn utf8_bytes_of(v: int) -> Seq<u8> {
    if v < 0x80 {
        seq![v as u8]
    } else if v < 0x800 {
        seq![(192 + v / 64) as u8, (128 + v % 64) as u8]
    } else if v < 0x10000 {
        seq![(224 + v / 4096) as u8, (128 + (v / 64) % 64) as u8, (128 + v % 64) as u8]
    } else {
        seq![
            (240 + v / 262144) as u8,
            (128 + (v / 4096) % 64) as u8,
            (128 + (v / 64) % 64) as u8,
            (128 + v % 64) as u8,
        ]
    }
}

/// A character reference body (after the `#`): an optional `x`/`X` for
/// hexadecimal, then digits, denoting a scalar value; its UTF-8 bytes.
pub open spec fn spec_charref(e: Seq<u8>) -> Option<Seq<u8>> {
    let hex = e.len() >= 1 && (e[0] == 120 || e[0] == 88);
    let d = if hex {
        e.skip(1)
    } else {
        e
    };
    if d.len() == 0 || (hex && d.len() > 6) || (!hex && d.len() > 7) {
        Option::None
    } else {
        let v = ref_value(d, hex);
        if valid_scalar(v) {
            Option::Some(utf8_bytes_of(v))
        } else {
            Option::None
        }
    }
}

/// Unescapes XML character data: entities are resolved, everything else
/// passes through; a malformed entity makes the whole fragment malformed
/// (the callers then drop the fragment, as feed readers do).
pub open spec fn spec_unescape(s: Seq<u8>) -> Option<Seq<u8>>
    decreases s.len(),
{
    if s.len() == 0 {
        Option::Some(Seq::empty())
    } else if s[0] != 38 {
        match spec_unescape(s.skip(1)) {
            Option::Some(rest) => Option::Some(seq![s[0]] + rest),
            Option::None => Option::None,
        }
    } else {
        let k = find_byte_spec(s, 1, 59);
        if k >= s.len() {
            Option::None
        } else {
            proof {
                lemma_find_byte_bounds(s, 1, 59);
            }
            match spec_entity(s.subrange(1, k)) {
                Option::Some(b) => match spec_unescape(s.skip(k + 1)) {
                    Option::Some(rest) => Option::Some(b + rest),
                    Option::None => Option::None,
                },
                Option::None => Option::None,
            }
        }
    }
}

/// Upper bound on a digit-run value, by its length.
pub open spec fn ref_cap(j: int, hex: bool) -> int {
    if hex {
        if j <= 0 {
            1
        } else if j == 1 {
            16
        } else if j == 2 {
            256
        } else if j == 3 {
            4096
        } else if j == 4 {
            65536
        } else if j == 5 {
            1048576
        } else {
            16777216
        }
    } else {
        if j <= 0 {
            1
        } else if j == 1 {
            10
        } else if j == 2 {
            100
        } else if j == 3 {
            1000
        } else if j == 4 {
            10000
        } else if j == 5 {
            100000
        } else if j == 6 {
            1000000
        } else {
            10000000
        }
    }
}

proof fn lemma_ref_upper(d: Seq<u8>, j: int, hex: bool)
    requires
        0 <= j <= d.len(),
        hex ==> j <= 6,
        !hex ==> j <= 7,
    ensures
        ref_value(d.take(j), hex) < ref_cap(j, hex),
    decreases j,
{
    if j > 0 {
        lemma_ref_upper(d, j - 1, hex);
        assert(d.take(j).take(j - 1) =~= d.take(j - 1));
    } else {
        assert(d.take(0).len() == 0);
    }
}

/// A bad digit poisons every longer run.
proof fn lemma_ref_neg(d: Seq<u8>, k: int, hex: bool)
    requires
        0 <= k <= d.len(),
        ref_value(d.take(k), hex) < 0,
    ensures
        ref_value(d, hex) < 0,
    decreases d.len() - k,
{
    if k < d.len() {
        assert(d.take(k + 1).take(k) =~= d.take(k));
        lemma_ref_neg(d, k + 1, hex);
    } else {
        assert(d.take(k) =~= d);
    }
}

/// Resolves one entity body.
fn entity_bytes(e: &Vec<u8>) -> (r: Option<Vec<u8>>)
    ensures
        match r {
            Option::Some(b) => spec_entity(e@) == Option::Some(b@),
            Option::None => spec_entity(e@) is None,
        },
{
    let n = e.len();
    if n == 3 && e[0] == 97 && e[1] == 109 && e[2] == 112 {
        proof {
            assert(e@ =~= seq![97u8, 109u8, 112u8]);
        }
        let b: Vec<u8> = vec![38];
        proof {
            assert(b@ =~= seq![38u8]);
        }
        return Some(b);
    }
    if n == 2 && e[0] == 108 && e[1] == 116 {
        proof {
            assert(e@ =~= seq![108u8, 116u8]);
        }
        let b: Vec<u8> = vec![60];
        proof {
            assert(b@ =~= seq![60u8]);
        }
        return Some(b);
    }
    if n == 2 && e[0] == 103 && e[1] == 116 {
        proof {
            assert(e@ =~= seq![103u8, 116u8]);
        }
        let b: Vec<u8> = vec![62];
        proof {
            assert(b@ =~= seq![62u8]);
        }
        return Some(b);
    }
    if n == 4 && e[0] == 97 && e[1] == 112 && e[2] == 111 && e[3] == 115 {
        proof {
            assert(e@ =~= seq![97u8, 112u8, 111u8, 115u8]);
        }
        let b: Vec<u8> = vec![39];
        proof {
            assert(b@ =~= seq![39u8]);
        }
        return Some(b);
    }
    if n == 4 && e[0] == 113 && e[1] == 117 && e[2] == 111 && e[3] == 116 {
        proof {
            assert(e@ =~= seq![113u8, 117u8, 111u8, 116u8]);
        }
        let b: Vec<u8> = vec![34];
        proof {
            assert(b@ =~= seq![34u8]);
        }
        return Some(b);
    }
    proof {
        assert(!(e@ =~= seq![97u8, 109u8, 112u8]));
        assert(!(e@ =~= seq![108u8, 116u8]));
        assert(!(e@ =~= seq![103u8, 116u8]));
        assert(!(e@ =~= seq![97u8, 112u8, 111u8, 115u8]));
        assert(!(e@ =~= seq![113u8, 117u8, 111u8, 116u8]));
    }
    if n >= 2 && e[0] == 35 {
        // Character reference, decimal or hexadecimal.
        let hex = e[1] == 120 || e[1] == 88;
        let ds: usize = if hex {
            2
        } else {
            1
        };
        let ghost body = e@.skip(1);
        let ghost d = if hex {
            body.skip(1)
        } else {
            body
        };
        proof {
            assert(d =~= e@.skip(ds as int));
            assert(body[0] == e@[1]);
            assert(spec_entity(e@) == spec_charref(body));
        }
        let m = n - ds;
        if m == 0 || (hex && m > 6) || (!hex && m > 7) {
            return None;
        }
        let mut v: u32 = 0;
        let mut k: usize = ds;
        proof {
            assert(d.take(0).len() == 0);
            assert(ref_value(d.take(0), hex) == 0);
        }
        while k < n
            invariant
                ds <= k <= n,
                2 <= n == e@.len(),
                ds == if hex {
                    2int
                } else {
                    1int
                },
                n - ds <= 7,
                hex ==> n - ds <= 6,
                hex == (e@[1] == 120 || e@[1] == 88),
                spec_entity(e@) == spec_charref(e@.skip(1)),
                d == e@.skip(ds as int),
                v as int == ref_value(d.take(k - ds), hex),
                (v as int) < ref_cap(k - ds, hex),
            decreases n - k,
        {
            proof {
                assert(d.take(k as int - ds + 1).take(k as int - ds) =~= d.take(k as int - ds));
                assert(d.take(k as int - ds + 1)[k - ds] == e@[k as int]);
                lemma_ref_upper(d, k as int - ds + 1, hex);
                assert(ref_cap(k as int - ds, hex) <= 16777216);
            }
            let b = e[k];
            let digit: u32;
            if 48 <= b && b <= 57 {
                digit = (b - 48) as u32;
            } else if hex && 97 <= b && b <= 102 {
                digit = (b - 87) as u32;
            } else if hex && 65 <= b && b <= 70 {
                digit = (b - 55) as u32;
            } else {
                proof {
                    assert(ref_value(d.take(k as int - ds + 1), hex) < 0);
                    lemma_ref_neg(d, k as int - ds + 1, hex);
                    let body = e@.skip(1);
                    assert(body[0] == e@[1]);
                    assert(body.skip(1) =~= e@.skip(2));
                    assert((if hex {
                        body.skip(1)
                    } else {
                        body
                    }) =~= d);
                    assert(spec_charref(body) is None);
                }
                return None;
            }
            v = v * (if hex {
                16
            } else {
                10
            }) + digit;
            k = k + 1;
        }
        proof {
            assert(d.take(n as int - ds) =~= d);
        }
        if v > 0x10FFFF || (0xD800 <= v && v <= 0xDFFF) {
            return None;
        }
        let mut b: Vec<u8> = Vec::new();
        if v < 0x80 {
            b.push(v as u8);
        } else if v < 0x800 {
            b.push((192 + v / 64) as u8);
            b.push((128 + v % 64) as u8);
        } else if v < 0x10000 {
            b.push((224 + v / 4096) as u8);
            b.push((128 + (v / 64) % 64) as u8);
            b.push((128 + v % 64) as u8);
        } else {
            b.push((240 + v / 262144) as u8);
            b.push((128 + (v / 4096) % 64) as u8);
            b.push((128 + (v / 64) % 64) as u8);
            b.push((128 + v % 64) as u8);
        }
        proof {
            assert(b@ =~= utf8_bytes_of(v as int));
        }
        return Some(b);
    }
    None
}

/// Unescapes a fragment of character data; `None` when an entity is
/// malformed.
pub fn unescape(s: &Vec<u8>) -> (r: Option<Vec<u8>>)
    ensures
        match r {
            Option::Some(out) => spec_unescape(s@) == Option::Some(out@),
            Option::None => spec_unescape(s@) is None,
        },
{
    let n = s.len();
    let mut out: Vec<u8> = Vec::new();
    let mut i: usize = 0;
    proof {
        assert(s@.skip(0) =~= s@);
    }
    while i < n
        invariant
            0 <= i <= n,
            n == s@.len(),
            spec_unescape(s@) == (match spec_unescape(s@.skip(i as int)) {
                Option::Some(rest) => Option::Some(out@ + rest),
                Option::None => Option::<Seq<u8>>::None,
            }),
        decreases n - i,
    {
        let ghost suffix = s@.skip(i as int);
        proof {
            assert(suffix[0] == s@[i as int]);
        }
        if s[i] != 38 {
            proof {
                assert(suffix.skip(1) =~= s@.skip(i as int + 1));
            }
            let ghost out_old = out@;
            out.push(s[i]);
            proof {
                assert(forall|rest: Seq<u8>| out_old + (seq![s@[i as int]] + rest) =~= out@
                    + rest);
            }
            i = i + 1;
        } else {
            // Find the closing `;` of the entity.
            let mut k: usize = i + 1;
            while k < n && s[k] != 59
                invariant
                    i + 1 <= k <= n,
                    n == s@.len(),
                    find_byte_spec(s@, i as int + 1, 59) == find_byte_spec(s@, k as int, 59),
                decreases n - k,
            {
                k = k + 1;
            }
            proof {
                assert(find_byte_spec(s@, i as int + 1, 59) == k as int);
                assert(find_byte_spec(suffix, 1, 59) == k - i) by {
                    lemma_find_byte_shift(s@, i as int, 59);
                }
            }
            if k >= n {
                proof {
                    assert(find_byte_spec(suffix, 1, 59) >= suffix.len());
                }
                return None;
            }
            let ent = copy_vec_range_pub(s, i + 1, k);
            proof {
                assert(ent@ =~= suffix.subrange(1, k - i));
            }
            match entity_bytes(&ent) {
                Option::Some(b) => {
                    let ghost out_old = out@;
                    let ghost bv = b@;
                    let mut b = b;
                    out.append(&mut b);
                    proof {
                        assert(suffix.skip(k - i + 1) =~= s@.skip(k as int + 1));
                        assert(forall|rest: Seq<u8>| out_old + (bv + rest) =~= out@ + rest);
                    }
                    i = k + 1;
                },
                Option::None => {
                    return None;
                },
            }
        }
    }
    proof {
        assert(s@.skip(n as int).len() == 0);
        assert(out@ + Seq::<u8>::empty() =~= out@);
    }
    Some(out)
}

/// `find_byte_spec` over a suffix is the shifted scan over the whole.
proof fn lemma_find_byte_shift(s: Seq<u8>, i: int, q: u8)
    requires
        0 <= i < s.len(),
    ensures
        find_byte_spec(s.skip(i), 1, q) == find_byte_spec(s, i + 1, q) - i,
{
    lemma_find_byte_shift_aux(s, i, i + 1, q);
}

proof fn lemma_find_byte_shift_aux(s: Seq<u8>, i: int, j: int, q: u8)
    requires
        0 <= i < s.len(),
        i + 1 <= j <= s.len(),
    ensures
        find_byte_spec(s.skip(i), j - i, q) == find_byte_spec(s, j, q) - i,
    decreases s.len() - j,
{
    assert(s.skip(i).len() == s.len() - i);
    if j < s.len() {
        assert(s.skip(i)[j - i] == s[j]);
        if s[j] != q {
            lemma_find_byte_shift_aux(s, i, j + 1, q);
        }
    }
}

/// Copies `raw[from..to]` (public for the parsing modules).
pub fn copy_vec_range_pub(raw: &Vec<u8>, from: usize, to: usize) -> (r: Vec<u8>)
    requires
        from <= to <= raw@.len(),
    ensures
        r@ == raw@.subrange(from as int, to as int),
{
    copy_vec_range(raw, from, to)
}

/// The fragment with ASCII whitespace removed from both ends.
pub open spec fn spec_trim(s: Seq<u8>) -> Seq<u8> {
    let a = skip_ws(s, 0);
    let b = rstrip_ws(s, s.len() as int);
    if a >= b {
        Seq::empty()
    } else {
        s.subrange(a, b)
    }
}

pub open spec fn rstrip_ws(s: Seq<u8>, i: int) -> int
    decreases i,
{
    if i <= 0 || i > s.len() {
        0
    } else if is_ws(s[i - 1]) {
        rstrip_ws(s, i - 1)
    } else {
        i
    }
}

pub fn trim_bytes(s: &Vec<u8>) -> (r: Vec<u8>)
    ensures
        r@ == spec_trim(s@),
{
    let n = s.len();
    let a = scan_skip_ws(s, 0);
    let mut b = n;
    while b > 0 && (s[b - 1] == 32 || s[b - 1] == 9 || s[b - 1] == 10 || s[b - 1] == 13)
        invariant
            0 <= b <= n,
            n == s@.len(),
            rstrip_ws(s@, n as int) == rstrip_ws(s@, b as int),
        decreases b,
    {
        b = b - 1;
    }
    proof {
        assert(rstrip_ws(s@, n as int) == b as int);
    }
    if a >= b {
        proof {
            assert(spec_trim(s@) =~= Seq::<u8>::empty());
        }
        Vec::new()
    } else {
        copy_vec_range(s, a, b)
    }
}

/// Number of UTF-8 character starts among the first `i` bytes.
pub open spec fn count_chars(s: Seq<u8>, i: int) -> nat
    decreases i,
{
    if i <= 0 || i > s.len() {
        0
    } else {
        count_chars(s, i - 1) + if 128 <= s[i - 1] < 192 {
            0nat
        } else {
            1nat
        }
    }
}

/// Byte length of the prefix holding the first `limit` characters: the
/// position where character number `limit` (counted from 0) starts.
pub open spec fn cut_at(s: Seq<u8>, i: int, limit: nat) -> int
    decreases s.len() - i,
{
    if i < 0 || i >= s.len() {
        s.len() as int
    } else if !(128 <= s[i] < 192) && count_chars(s, i) == limit {
        i
    } else {
        cut_at(s, i + 1, limit)
    }
}

/// Counts the characters of a fragment.
pub fn char_count(s: &Vec<u8>) -> (r: usize)
    ensures
        r == count_chars(s@, s@.len() as int),
{
    let n = s.len();
    let mut c: usize = 0;
    let mut i: usize = 0;
    while i < n
        invariant
            0 <= i <= n,
            n == s@.len(),
            c == count_chars(s@, i as int),
            c <= i,
        decreases n - i,
    {
        if !(s[i] >= 128 && s[i] < 192) {
            c = c + 1;
        }
        i = i + 1;
    }
    c
}

/// The prefix of a fragment holding its first `limit` characters.
pub fn take_chars(s: &Vec<u8>, limit: usize) -> (r: Vec<u8>)
    ensures
        r@ == s@.take(cut_at(s@, 0, limit as nat)),
{
    let n = s.len();
    let mut c: usize = 0;
    let mut i: usize = 0;
    while i < n
        invariant
            0 <= i <= n,
            n == s@.len(),
            c == count_chars(s@, i as int),
            c <= i,
            cut_at(s@, 0, limit as nat) == cut_at(s@, i as int, limit as nat),
            forall|q: int|
                0 <= q < i ==> !(!(128 <= s@[q] < 192) && count_chars(s@, q) == limit as nat),
        decreases n - i,
    {
        let start = !(s[i] >= 128 && s[i] < 192);
        if start && c == limit {
            proof {
                assert(cut_at(s@, i as int, limit as nat) == i as int);
            }
            return copy_vec_range(s, 0, i);
        }
        if start {
            c = c + 1;
        }
        i = i + 1;
    }
    proof {
        assert(cut_at(s@, n as int, limit as nat) == n as int);
        assert(s@.take(n as int) =~= s@);
    }
    copy_vec_range(s, 0, n)
}

/// The text content of a fragment that may carry markup: every `<`..`>`
/// span is dropped (an unclosed `<` drops the rest), leaving the character
/// data between the tags.
pub open spec fn spec_strip_markup(s: Seq<u8>) -> Seq<u8>
    decreases s.len(),
{
    if s.len() == 0 {
        Seq::empty()
    } else if s[0] == 60 {
        let g = find_byte_spec(s, 1, 62);
        if g >= s.len() {
            Seq::empty()
        } else {
            proof {
                lemma_find_byte_bounds(s, 1, 62);
            }
            spec_strip_markup(s.skip(g + 1))
        }
    } else {
        seq![s[0]] + spec_strip_markup(s.skip(1))
    }
}

/// Drops markup spans from a fragment.
pub fn strip_markup(s: &Vec<u8>) -> (r: Vec<u8>)
    ensures
        r@ == spec_strip_markup(s@),
{
    let n = s.len();
    let mut out: Vec<u8> = Vec::new();
    let mut i: usize = 0;
    proof {
        assert(s@.skip(0) =~= s@);
    }
    while i < n
        invariant
            0 <= i <= n,
            n == s@.len(),
            spec_strip_markup(s@) == out@ + spec_strip_markup(s@.skip(i as int)),
        decreases n - i,
    {
        let ghost suffix = s@.skip(i as int);
        proof {
            assert(suffix[0] == s@[i as int]);
        }
        if s[i] == 60 {
            proof {
                lemma_find_byte_shift(s@, i as int, 62);
            }
            let mut g = i + 1;
            while g < n && s[g] != 62
                invariant
                    i + 1 <= g <= n,
                    n == s@.len(),
                    find_byte_spec(s@, i as int + 1, 62) == find_byte_spec(s@, g as int, 62),
                decreases n - g,
            {
                g = g + 1;
            }
            proof {
                assert(find_byte_spec(s@, i as int + 1, 62) == g as int);
                assert(find_byte_spec(suffix, 1, 62) == g - i);
            }
            if g >= n {
                proof {
                    assert(spec_strip_markup(suffix) =~= Seq::<u8>::empty());
                    assert(out@ + Seq::<u8>::empty() =~= out@);
                }
                return out;
            }
            proof {
                assert(suffix.skip(g - i + 1) =~= s@.skip(g as int + 1));
            }
            i = g + 1;
        } else {
            let ghost out_old = out@;
            out.push(s[i]);
            proof {
                assert(suffix.skip(1) =~= s@.skip(i as int + 1));
                assert(forall|rest: Seq<u8>| out_old + (seq![s@[i as int]] + rest) =~= out@
                    + rest);
            }
            i = i + 1;
        }
    }
    proof {
        assert(s@.skip(n as int).len() == 0);
        assert(out@ + Seq::<u8>::empty() =~= out@);
    }
    out
}

/// What `String::from_utf8_lossy` makes of a byte fragment; the result
/// depends on the bytes alone.
pub uninterp spec fn utf8_decode(b: Seq<u8>) -> Seq<char>;

/// Relies on `String::from_utf8_lossy`: decodes UTF-8, substituting the
/// replacement character for invalid sequences; valid UTF-8 input comes
/// back exactly as the characters it encodes.
#[verifier::external_body]
pub fn bytes_to_string(b: &Vec<u8>) -> (r: String)
    ensures
        r@ == utf8_decode(b@),
        forall|s: Seq<char>| b@ == vstd::utf8::encode_utf8(s) ==> r@ == s,
{
    String::from_utf8_lossy(b).into_owned()
}

} // verus!
