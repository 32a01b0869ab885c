//! A trace and its payloads in one document.
//!
//! A viewer without a server needs a trace as one file: the events, and every
//! payload they name. Payloads are JSON text, so they are held as text and
//! the document stays readable.

use crate::cas::{found, keeps, stored, Cas, Contents, StoreError};
use crate::event::{Event, EventModel};
use crate::hash::Digest;
use crate::json::{fields_of, find_field, items_of, lookup, ordered, printed, tidy, Json, JsonModel};
use crate::record::{event_json, no_fields, number, put, put_field, Fields};
use crate::trace::{header_json, Trace, TraceModel};
use vstd::prelude::*;
use vstd::utf8::{decode_utf8, valid_utf8};

verus! {

/// The text that `String::from_utf8_lossy` reads from bytes.
pub uninterp spec fn lossy_text(bytes: Seq<u8>) -> Seq<char>;

/// `String::from_utf8_lossy`: the text that the bytes encode, with what is no
/// UTF-8 replaced. Bytes that are UTF-8 are decoded as they are.
#[verifier::external_body]
pub(crate) fn read_lossy(bytes: &[u8]) -> (r: String)
    ensures
        r@ == lossy_text(bytes@),
        valid_utf8(bytes@) ==> r@ == decode_utf8(bytes@),
{
    String::from_utf8_lossy(bytes).into_owned()
}

// ---------------------------------------------------------------------------
// What a trace names
// ---------------------------------------------------------------------------

/// The payloads that an event names. What a fault hid is one of them.
pub open spec fn references(e: EventModel) -> Seq<Seq<char>> {
    match e.shadow {
        Some(d) => seq![e.request, e.outcome, d],
        None => seq![e.request, e.outcome],
    }
}

/// The payloads that events name, in their order.
pub open spec fn all_references(events: Seq<EventModel>) -> Seq<Seq<char>>
    decreases events.len(),
{
    if events.len() == 0 {
        seq![]
    } else {
        all_references(events.drop_last()) + references(events.last())
    }
}

/// The payloads that an event names.
pub fn referenced(event: &Event) -> (r: Vec<&Digest>)
    ensures
        r@.len() == references(event@).len(),
        forall|i: int| 0 <= i < r@.len() ==> (#[trigger] r@[i])@ == references(event@)[i],
{
    let mut out: Vec<&Digest> = Vec::new();
    out.push(&event.request);
    out.push(&event.outcome);
    if let Some(d) = &event.shadow {
        out.push(d);
    }
    out
}

// ---------------------------------------------------------------------------
// Collecting payloads
// ---------------------------------------------------------------------------

/// The payloads found so far, and how many were not.
pub struct Collected {
    pub objects: Fields,
    pub missing: nat,
}

/// The payloads once one more is looked for: one that is known is not looked
/// for again.
pub open spec fn collect(c: Collected, contents: Contents, digest: Seq<char>) -> Collected {
    if lookup(c.objects, digest) is Some {
        c
    } else {
        match found(contents, digest) {
            Some(bytes) => Collected {
                objects: put(c.objects, digest, JsonModel::Text(lossy_text(bytes))),
                ..c
            },
            None => Collected { missing: c.missing + 1, ..c },
        }
    }
}

/// The payloads under some digests, and how many were not found.
pub open spec fn collected(contents: Contents, digests: Seq<Seq<char>>) -> Collected
    decreases digests.len(),
{
    if digests.len() == 0 {
        Collected { objects: seq![], missing: 0 }
    } else {
        collect(collected(contents, digests.drop_last()), contents, digests.last())
    }
}

/// Every payload that is in the store is collected, with its text, and where
/// none is missing every digest has its payload.
pub proof fn lemma_collected(contents: Contents, digests: Seq<Seq<char>>, i: int)
    requires
        0 <= i < digests.len(),
    ensures
        ({
            let c = collected(contents, digests);
            match found(contents, digests[i]) {
                Some(bytes) => lookup(c.objects, digests[i]) == Some(
                    JsonModel::Text(lossy_text(bytes)),
                ),
                None => c.missing > 0,
            }
        }),
    decreases digests.len(),
{
    broadcast use crate::record::lemma_lookup_put;

    let before = collected(contents, digests.drop_last());
    let d = digests[i];
    if i < digests.len() - 1 {
        lemma_collected(contents, digests.drop_last(), i);
        assert(digests.drop_last()[i] == d);
    } else if lookup(before.objects, d) is Some {
        lemma_collected_only(contents, digests.drop_last(), d);
    }
}

/// Nothing is collected but what the store holds.
pub proof fn lemma_collected_only(contents: Contents, digests: Seq<Seq<char>>, d: Seq<char>)
    ensures
        ({
            let c = collected(contents, digests);
            lookup(c.objects, d) is Some ==> found(contents, d) is Some && lookup(c.objects, d)
                == Some(JsonModel::Text(lossy_text(found(contents, d)->0)))
        }),
    decreases digests.len(),
{
    broadcast use crate::record::lemma_lookup_put;

    if digests.len() > 0 {
        lemma_collected_only(contents, digests.drop_last(), d);
    }
}

/// The payloads of a trace.
pub struct Payloads {
    /// Each payload as text under its digest.
    pub objects: Vec<(String, Json)>,
    /// How many lookups found nothing.
    pub missing: usize,
}

/// A count as far as a size reaches.
pub open spec fn count_capped(n: nat) -> usize {
    if n <= usize::MAX {
        n as usize
    } else {
        usize::MAX
    }
}

/// Collects the payloads that a trace names.
pub fn collect_payloads<C: Cas>(trace: &Trace, cas: &C) -> (r: Result<Payloads, StoreError>)
    ensures
        cas.works() ==> r is Ok,
        r is Ok ==> {
            let c = collected(cas.contents(), all_references(trace@.events));
            &&& fields_of(r->Ok_0.objects@) == c.objects
            &&& r->Ok_0.missing == count_capped(c.missing)
        },
{
    let ghost events = trace@.events;
    let ghost contents = cas.contents();
    let mut objects = no_fields();
    let mut missing: usize = 0;
    let mut i: usize = 0;
    assert(events.take(0) =~= seq![]);
    while i < trace.events.len()
        invariant
            i <= trace.events@.len(),
            events == trace@.events,
            contents == cas.contents(),
            fields_of(objects@) == collected(
                contents,
                all_references(events.take(i as int)),
            ).objects,
            missing == count_capped(
                collected(contents, all_references(events.take(i as int))).missing,
            ),
        decreases trace.events@.len() - i,
    {
        let named = referenced(&trace.events[i]);
        let ghost before = all_references(events.take(i as int));
        let ghost refs = references(events[i as int]);
        proof {
            assert(events[i as int] == trace.events@[i as int]@);
            assert(events.take(i + 1).drop_last() =~= events.take(i as int));
            assert(before + refs.take(0) =~= before);
        }
        let mut k: usize = 0;
        while k < named.len()
            invariant
                k <= named@.len(),
                named@.len() == refs.len(),
                forall|j: int| 0 <= j < named@.len() ==> (#[trigger] named@[j])@ == refs[j],
                contents == cas.contents(),
                fields_of(objects@) == collected(contents, before + refs.take(k as int)).objects,
                missing == count_capped(
                    collected(contents, before + refs.take(k as int)).missing,
                ),
            decreases named@.len() - k,
        {
            let digest = named[k];
            proof {
                let sofar = before + refs.take(k as int);
                let more = before + refs.take(k + 1);
                assert(more.drop_last() =~= sofar);
                assert(more.last() == digest@);
            }
            if find_field(&objects, digest.as_str()).is_none() {
                match cas.get(digest) {
                    Ok(Some(bytes)) => {
                        let text = read_lossy(bytes.as_slice());
                        put_field(&mut objects, digest.as_str(), Json::text(text.as_str()));
                    },
                    Ok(None) => {
                        missing = missing.saturating_add(1);
                    },
                    Err(e) => {
                        return Err(e);
                    },
                }
            }
            k += 1;
        }
        proof {
            assert(refs.take(k as int) =~= refs);
            assert(events.take(i + 1).last() == events[i as int]);
        }
        i += 1;
    }
    assert(events.take(i as int) =~= events);
    Ok(Payloads { objects, missing })
}

// ---------------------------------------------------------------------------
// The document
// ---------------------------------------------------------------------------

/// The version of the document's format, apart from that of traces.
pub const BUNDLE_VERSION: u32 = 1;

/// A trace as a document.
pub open spec fn trace_json(t: TraceModel) -> JsonModel {
    JsonModel::Object(
        put(
            put(seq![], "header"@, header_json(t.header)),
            "events"@,
            JsonModel::Array(Seq::new(t.events.len(), |i: int| event_json(t.events[i]))),
        ),
    )
}

/// A trace and its payloads as a document, with the payloads in the order of
/// their digests.
pub open spec fn bundle_json(t: TraceModel, objects: Fields) -> JsonModel {
    JsonModel::Object(
        put(
            put(
                put(seq![], "bundle_version"@, number(BUNDLE_VERSION as u64)),
                "trace"@,
                trace_json(t),
            ),
            "objects"@,
            ordered(JsonModel::Object(objects)),
        ),
    )
}

/// A trace as a document.
fn write_trace(trace: &Trace) -> (r: Json)
    ensures
        r@ == trace_json(trace@),
{
    let mut items: Vec<Json> = Vec::new();
    let mut i: usize = 0;
    while i < trace.events.len()
        invariant
            i <= trace.events@.len(),
            items@.len() == i,
            forall|k: int| 0 <= k < i ==> (#[trigger] items@[k])@ == event_json(trace@.events[k]),
        decreases trace.events@.len() - i,
    {
        items.push(trace.events[i].to_json());
        assert(trace@.events[i as int] == trace.events@[i as int]@);
        i += 1;
    }
    let ghost wanted = Seq::new(trace@.events.len(), |k: int| event_json(trace@.events[k]));
    assert(items_of(items@) =~= wanted);
    let mut fields = no_fields();
    put_field(&mut fields, "header", trace.header.to_json());
    put_field(&mut fields, "events", Json::array(items));
    Json::object(fields)
}

proof fn lemma_bundle_tidy(t: TraceModel, objects: Fields)
    ensures
        tidy(bundle_json(t, objects)),
{
    broadcast use crate::record::lemma_lookup_put;

    reveal_strlit("header");
    reveal_strlit("events");
    reveal_strlit("bundle_version");
    reveal_strlit("trace");
    reveal_strlit("objects");
    assert("header"@.len() == 6 && "events"@.len() == 6 && "bundle_version"@.len() == 14
        && "trace"@.len() == 5 && "objects"@.len() == 7);
    assert("header"@[0] == 'h' && "events"@[0] == 'e');
    crate::trace::lemma_header_back(t.header);
    let items = Seq::new(t.events.len(), |i: int| event_json(t.events[i]));
    assert forall|i: int| 0 <= i < items.len() implies tidy(#[trigger] items[i]) by {
        crate::record::lemma_event_back(t.events[i]);
    }
    crate::json::lemma_ordered_tidy(JsonModel::Object(objects));
    let none = Seq::<(Seq<char>, JsonModel)>::empty();
    let h = put(none, "header"@, header_json(t.header));
    let e = put(h, "events"@, JsonModel::Array(items));
    crate::record::lemma_tidy_put(none, "header"@, header_json(t.header));
    crate::record::lemma_tidy_put(h, "events"@, JsonModel::Array(items));
    let v = put(none, "bundle_version"@, number(BUNDLE_VERSION as u64));
    let w = put(v, "trace"@, trace_json(t));
    crate::record::lemma_tidy_put(none, "bundle_version"@, number(BUNDLE_VERSION as u64));
    crate::record::lemma_tidy_put(v, "trace"@, trace_json(t));
    crate::record::lemma_tidy_put(w, "objects"@, ordered(JsonModel::Object(objects)));
}

/// The text of a trace and its payloads in one document.
pub fn write_bundle(trace: &Trace, payloads: &Payloads) -> (r: String)
    ensures
        r@ == printed(bundle_json(trace@, fields_of(payloads.objects@))),
{
    let mut copies: Vec<(String, Json)> = no_fields();
    let mut i: usize = 0;
    let ghost all = fields_of(payloads.objects@);
    assert(all.take(0) =~= seq![]);
    while i < payloads.objects.len()
        invariant
            i <= payloads.objects@.len(),
            all == fields_of(payloads.objects@),
            fields_of(copies@) == all.take(i as int),
        decreases payloads.objects@.len() - i,
    {
        let entry = &payloads.objects[i];
        put_field(&mut copies, entry.0.as_str(), entry.1.clone());
        assert(all.take(i + 1) =~= all.take(i as int).push(all[i as int]));
        i += 1;
    }
    assert(all.take(i as int) =~= all);
    let mut fields = no_fields();
    put_field(&mut fields, "bundle_version", Json::whole(BUNDLE_VERSION as u64));
    put_field(&mut fields, "trace", write_trace(trace));
    put_field(&mut fields, "objects", Json::object(copies).ordered());
    proof {
        lemma_bundle_tidy(trace@, all);
    }
    Json::object(fields).print()
}

// ---------------------------------------------------------------------------
// Copying payloads
// ---------------------------------------------------------------------------

/// A store once the payloads under some digests were copied into it.
pub open spec fn copied(from: Contents, into: Contents, digests: Seq<Seq<char>>) -> Contents
    decreases digests.len(),
{
    if digests.len() == 0 {
        into
    } else {
        let before = copied(from, into, digests.drop_last());
        match found(from, digests.last()) {
            Some(bytes) => stored(before, bytes),
            None => before,
        }
    }
}

/// Copies every payload that a trace names into another store, so that the
/// trace and that store stand by themselves.
pub fn copy_payloads<A: Cas, B: Cas>(trace: &Trace, from: &A, into: &mut B) -> (r: Result<
    (),
    StoreError,
>)
    ensures
        final(into).works() == old(into).works(),
        from.works() && old(into).works() ==> r is Ok,
        keeps(old(into).contents(), final(into).contents()),
        r is Ok && old(into).works() ==> final(into).contents() == copied(
            from.contents(),
            old(into).contents(),
            all_references(trace@.events),
        ),
{
    let ghost events = trace@.events;
    let ghost start = into.contents();
    let ghost source = from.contents();
    let mut i: usize = 0;
    assert(events.take(0) =~= seq![]);
    while i < trace.events.len()
        invariant
            i <= trace.events@.len(),
            events == trace@.events,
            source == from.contents(),
            start == old(into).contents(),
            into.works() == old(into).works(),
            keeps(start, into.contents()),
            old(into).works() ==> into.contents() == copied(
                source,
                start,
                all_references(events.take(i as int)),
            ),
        decreases trace.events@.len() - i,
    {
        let named = referenced(&trace.events[i]);
        let ghost before = all_references(events.take(i as int));
        let ghost refs = references(events[i as int]);
        proof {
            assert(events[i as int] == trace.events@[i as int]@);
            assert(events.take(i + 1).drop_last() =~= events.take(i as int));
            assert(before + refs.take(0) =~= before);
        }
        let mut k: usize = 0;
        while k < named.len()
            invariant
                k <= named@.len(),
                named@.len() == refs.len(),
                forall|j: int| 0 <= j < named@.len() ==> (#[trigger] named@[j])@ == refs[j],
                source == from.contents(),
                start == old(into).contents(),
                into.works() == old(into).works(),
                keeps(start, into.contents()),
                old(into).works() ==> into.contents() == copied(
                    source,
                    start,
                    before + refs.take(k as int),
                ),
            decreases named@.len() - k,
        {
            let digest = named[k];
            proof {
                let sofar = before + refs.take(k as int);
                let more = before + refs.take(k + 1);
                assert(more.drop_last() =~= sofar);
                assert(more.last() == digest@);
            }
            match from.get(digest) {
                Ok(Some(bytes)) => {
                    match into.put(bytes.as_slice()) {
                        Ok(_) => {},
                        Err(e) => {
                            return Err(e);
                        },
                    }
                },
                Ok(None) => {},
                Err(e) => {
                    return Err(e);
                },
            }
            k += 1;
        }
        proof {
            assert(refs.take(k as int) =~= refs);
            assert(events.take(i + 1).last() == events[i as int]);
        }
        i += 1;
    }
    assert(events.take(i as int) =~= events);
    Ok(())
}

/// What was copied is found in the other store, under the digest of its
/// bytes.
pub proof fn lemma_copied(from: Contents, into: Contents, digests: Seq<Seq<char>>, i: int)
    requires
        0 <= i < digests.len(),
        found(from, digests[i]) is Some,
    ensures
        copied(from, into, digests).dom().contains(
            crate::hash::blake3_hex(found(from, digests[i])->0),
        ),
    decreases digests.len(),
{
    if i < digests.len() - 1 {
        lemma_copied(from, into, digests.drop_last(), i);
        assert(digests.drop_last()[i] == digests[i]);
    }
}

} // verus!
