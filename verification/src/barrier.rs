//! Holding concurrent calls until their order can be chosen.
//!
//! To decide the order in which concurrent calls complete, the early ones
//! have to be held until the rest of their burst has arrived. The order of
//! arrival is a race and must never matter: the calls of a burst are put into
//! the order of the recording before anything is scheduled, and answered one
//! at a time in the order that was chosen.
//!
//! Waiting, with its bound, is the caller's: here stands what a call finds
//! when it arrives, when its turn is, and what it is answered.

use crate::canon::{identity_of, Canonicalizer};
use crate::cas::Cas;
use crate::event::{EffectRequest, EventModel, Outcome, OutcomeModel, RequestModel};
use crate::fault::is_order;
use crate::hash::Digest;
use crate::ledger::Ledger;
use crate::model::views;
use crate::replay::{batch_tag, completion, exchanges, Effects};
use crate::replayer::{
    batch_begun, batch_performed, completion_order, stepped, ReplayState, Replayer, Step,
};
use crate::text::{before, decimal, precedes, same, show, times_in};
use crate::trace::Trace;
use std::collections::HashMap;
use vstd::prelude::*;

verus! {

broadcast use vstd::std_specs::hash::group_hash_axioms;

// ---------------------------------------------------------------------------
// The bursts of a recording
// ---------------------------------------------------------------------------

/// The bursts of a recording so far: their numbers, and the identities of
/// their calls.
pub struct Layout {
    pub ids: Seq<u64>,
    pub members: Seq<Seq<Seq<char>>>,
}

/// Where a number stands in a list, if it does.
pub open spec fn place_in(ids: Seq<u64>, id: u64) -> Option<int>
    decreases ids.len(),
{
    if ids.len() == 0 {
        None
    } else {
        match place_in(ids.drop_last(), id) {
            Some(i) => Some(i),
            None => if ids.last() == id {
                Some(ids.len() - 1)
            } else {
                None
            },
        }
    }
}

pub proof fn lemma_place_in(ids: Seq<u64>, id: u64)
    ensures
        match place_in(ids, id) {
            Some(i) => 0 <= i < ids.len() && ids[i] == id,
            None => !ids.contains(id),
        },
    decreases ids.len(),
{
    if ids.len() > 0 {
        lemma_place_in(ids.drop_last(), id);
        if place_in(ids, id) is None {
            assert forall|k: int| 0 <= k < ids.len() implies ids[k] != id by {
                if k < ids.len() - 1 {
                    assert(ids.drop_last()[k] == ids[k]);
                    assert(!ids.drop_last().contains(id));
                }
            }
        }
    }
}

/// The bursts of a recording, in the order in which they first appear.
pub open spec fn layout(events: Seq<EventModel>) -> Layout
    decreases events.len(),
{
    if events.len() == 0 {
        Layout { ids: seq![], members: seq![] }
    } else {
        let sofar = layout(events.drop_last());
        let e = events.last();
        match e.batch {
            Some(batch) => match place_in(sofar.ids, batch) {
                Some(i) => Layout {
                    ids: sofar.ids,
                    members: sofar.members.update(i, sofar.members[i].push(e.identity)),
                },
                None => Layout {
                    ids: sofar.ids.push(batch),
                    members: sofar.members.push(seq![e.identity]),
                },
            },
            None => sofar,
        }
    }
}

/// The texts of some lists of digests.
pub open spec fn digest_lists(v: Seq<Vec<Digest>>) -> Seq<Seq<Seq<char>>> {
    Seq::new(v.len(), |i: int| views(v[i]@))
}

/// The place of a number in a list.
fn find_id(ids: &Vec<u64>, id: u64) -> (r: Option<usize>)
    ensures
        match r {
            Some(i) => place_in(ids@, id) == Some(i as int) && i < ids@.len(),
            None => place_in(ids@, id) is None,
        },
{
    let mut i: usize = 0;
    assert(ids@.take(0) =~= seq![]);
    while i < ids.len()
        invariant
            i <= ids@.len(),
            place_in(ids@.take(i as int), id) is None,
        decreases ids@.len() - i,
    {
        assert(ids@.take(i + 1).drop_last() =~= ids@.take(i as int));
        if ids[i] == id {
            proof {
                lemma_place_stays(ids@, i + 1, id);
            }
            return Some(i);
        }
        i += 1;
    }
    assert(ids@.take(i as int) =~= ids@);
    None
}

proof fn lemma_place_stays(ids: Seq<u64>, n: int, id: u64)
    requires
        0 <= n <= ids.len(),
        place_in(ids.take(n), id) is Some,
    ensures
        place_in(ids, id) == place_in(ids.take(n), id),
    decreases ids.len() - n,
{
    if n == ids.len() {
        assert(ids.take(n) =~= ids);
    } else {
        assert(ids.take(n + 1).drop_last() =~= ids.take(n));
        lemma_place_stays(ids, n + 1, id);
    }
}

/// Which calls belong together in a recording, in order of appearance.
pub fn batch_layout(trace: &Trace) -> (r: Vec<Vec<Digest>>)
    ensures
        digest_lists(r@) == layout(trace@.events).members,
{
    let mut recorded: Vec<Vec<Digest>> = Vec::new();
    let mut seen: Vec<u64> = Vec::new();
    let ghost all = trace@.events;
    assert(digest_lists(recorded@) =~= seq![]);
    let mut i: usize = 0;
    while i < trace.events.len()
        invariant
            i <= trace.events@.len(),
            all == trace@.events,
            seen@ == layout(all.take(i as int)).ids,
            digest_lists(recorded@) == layout(all.take(i as int)).members,
            recorded@.len() == seen@.len(),
        decreases trace.events@.len() - i,
    {
        proof {
            assert(all.take(i + 1).drop_last() =~= all.take(i as int));
            assert(all.take(i + 1).last() == trace.events@[i as int]@);
        }
        if let Some(batch) = trace.events[i].batch {
            let identity = trace.events[i].identity.clone();
            let ghost known = recorded@;
            match find_id(&seen, batch) {
                Some(at) => {
                    let mut members: Vec<Digest> = Vec::new();
                    std::mem::swap(&mut members, &mut recorded[at]);
                    let ghost old_members = members@;
                    members.push(identity);
                    assert(views(members@) =~= views(old_members).push(identity@));
                    recorded.set(at, members);
                    assert(digest_lists(recorded@) =~= digest_lists(known).update(
                        at as int,
                        digest_lists(known)[at as int].push(identity@),
                    ));
                },
                None => {
                    seen.push(batch);
                    let mut members: Vec<Digest> = Vec::new();
                    members.push(identity);
                    assert(views(members@) =~= seq![identity@]);
                    recorded.push(members);
                    assert(digest_lists(recorded@) =~= digest_lists(known).push(seq![identity@]));
                },
            }
        }
        i += 1;
    }
    assert(all.take(i as int) =~= all);
    recorded
}

// ---------------------------------------------------------------------------
// The order of a burst
// ---------------------------------------------------------------------------

/// A call that has arrived.
pub struct Arrived {
    pub call: Seq<char>,
    pub request: RequestModel,
}

/// The place of the call of this identity that comes after `rank` others of
/// it, or -1.
pub open spec fn ranked_place(recorded: Seq<Seq<char>>, identity: Seq<char>, rank: nat) -> int
    decreases recorded.len(),
{
    if recorded.len() == 0 {
        -1
    } else {
        let earlier = ranked_place(recorded.drop_last(), identity, rank);
        if earlier >= 0 {
            earlier
        } else if recorded.last() == identity && times_in(recorded.drop_last(), identity)
            == rank {
            recorded.len() - 1
        } else {
            -1
        }
    }
}

/// Where a call of a burst belongs: at its place in the recording, or behind
/// all of those where the recording has none for it.
pub open spec fn slot(recorded: Seq<Seq<char>>, identities: Seq<Seq<char>>, k: int) -> usize {
    let at = ranked_place(recorded, identities[k], times_in(identities.take(k), identities[k]));
    if at >= 0 {
        at as usize
    } else {
        usize::MAX
    }
}

/// What a call is ordered by.
pub struct SortKey {
    pub slot: usize,
    pub name: Seq<char>,
    pub identity: Seq<char>,
}

/// Whether a call is ordered before another: by slot, then by name, then by
/// identity.
pub open spec fn sooner(a: SortKey, b: SortKey) -> bool {
    ||| a.slot < b.slot
    ||| a.slot == b.slot && precedes(a.name, b.name)
    ||| a.slot == b.slot && a.name == b.name && precedes(a.identity, b.identity)
}

/// A call with what it is ordered by.
pub struct Slotted {
    pub key: SortKey,
    pub arrived: Arrived,
}

/// A list with one more call behind those that are not ordered after it.
pub open spec fn slot_in(list: Seq<Slotted>, x: Slotted) -> Seq<Slotted>
    decreases list.len(),
{
    if list.len() == 0 || !sooner(x.key, list.last().key) {
        list.push(x)
    } else {
        slot_in(list.drop_last(), x).push(list.last())
    }
}

/// Calls in order. Calls that are ordered alike stay as they came.
pub open spec fn in_order(list: Seq<Slotted>) -> Seq<Slotted>
    decreases list.len(),
{
    if list.len() == 0 {
        seq![]
    } else {
        slot_in(in_order(list.drop_last()), list.last())
    }
}

/// The identities of calls.
pub open spec fn identities(paths: Seq<Seq<char>>, arrived: Seq<Arrived>) -> Seq<Seq<char>> {
    Seq::new(arrived.len(), |k: int| identity_of(paths, arrived[k].request))
}

/// The calls of a burst with what they are ordered by.
pub open spec fn slotted(
    paths: Seq<Seq<char>>,
    recorded: Seq<Seq<char>>,
    arrived: Seq<Arrived>,
) -> Seq<Slotted> {
    Seq::new(
        arrived.len(),
        |k: int|
            Slotted {
                key: SortKey {
                    slot: slot(recorded, identities(paths, arrived), k),
                    name: arrived[k].request.name,
                    identity: identities(paths, arrived)[k],
                },
                arrived: arrived[k],
            },
    )
}

/// The calls of a burst in the order in which they are scheduled.
pub open spec fn lined_up(
    paths: Seq<Seq<char>>,
    recorded: Seq<Seq<char>>,
    arrived: Seq<Arrived>,
) -> Seq<Arrived> {
    let list = in_order(slotted(paths, recorded, arrived));
    Seq::new(list.len(), |k: int| list[k].arrived)
}

proof fn lemma_times_push(list: Seq<Seq<char>>, x: Seq<char>, y: Seq<char>)
    ensures
        times_in(list.push(x), y) == times_in(list, y) + if x == y {
            1nat
        } else {
            0nat
        },
{
    assert(list.push(x).drop_last() =~= list);
}

proof fn lemma_times_grow(list: Seq<Seq<char>>, i: int, j: int, x: Seq<char>)
    requires
        0 <= i <= j <= list.len(),
    ensures
        times_in(list.take(i), x) <= times_in(list.take(j), x),
        i < j && list[i] == x ==> times_in(list.take(i), x) < times_in(list.take(j), x),
    decreases j - i,
{
    if i < j {
        lemma_times_grow(list, i, j - 1, x);
        assert(list.take(j).drop_last() =~= list.take(j - 1));
        assert(list.take(j).last() == list[j - 1]);
    }
}

/// The ranked place is the one place of that identity and rank.
proof fn lemma_ranked_place(recorded: Seq<Seq<char>>, identity: Seq<char>, rank: nat)
    ensures
        ({
            let at = ranked_place(recorded, identity, rank);
            &&& -1 <= at < recorded.len()
            &&& at >= 0 ==> recorded[at] == identity && times_in(recorded.take(at), identity)
                == rank
            &&& at < 0 ==> times_in(recorded, identity) <= rank
        }),
    decreases recorded.len(),
{
    if recorded.len() > 0 {
        let front = recorded.drop_last();
        lemma_ranked_place(front, identity, rank);
        let at = ranked_place(front, identity, rank);
        if at >= 0 {
            assert(recorded.take(at) =~= front.take(at));
        } else {
            assert(recorded.take(recorded.len() - 1) =~= front);
        }
    }
}

proof fn lemma_rank_unique(recorded: Seq<Seq<char>>, identity: Seq<char>, at: int)
    requires
        0 <= at < recorded.len(),
        recorded[at] == identity,
    ensures
        ranked_place(recorded, identity, times_in(recorded.take(at), identity)) == at,
{
    let rank = times_in(recorded.take(at), identity);
    lemma_ranked_place(recorded, identity, rank);
    let found = ranked_place(recorded, identity, rank);
    if found < 0 {
        lemma_times_grow(recorded, at, recorded.len() as int, identity);
        assert(recorded.take(recorded.len() as int) =~= recorded);
    } else if found < at {
        lemma_times_grow(recorded, found, at, identity);
    } else if found > at {
        lemma_times_grow(recorded, at, found, identity);
    }
}

proof fn lemma_slot_in(list: Seq<Slotted>, x: Slotted)
    ensures
        slot_in(list, x).to_multiset() == list.to_multiset().insert(x),
        slot_in(list, x).len() == list.len() + 1,
        is_lined_up(list) ==> is_lined_up(slot_in(list, x)),
        slot_in(list, x).last() == x || (list.len() > 0 && slot_in(list, x).last() == list.last()),
    decreases list.len(),
{
    broadcast use vstd::seq_lib::group_to_multiset_ensures;

    if list.len() == 0 || !sooner(x.key, list.last().key) {
        if is_lined_up(list) {
            let out = list.push(x);
            assert forall|i: int, j: int| 0 <= i < j < out.len() implies !sooner(
                #[trigger] out[j].key,
                #[trigger] out[i].key,
            ) by {
                if j == list.len() && i < list.len() - 1 {
                    lemma_sooner_order(x.key, list.last().key, out[i].key);
                }
            }
        }
    } else {
        let front = list.drop_last();
        lemma_slot_in(front, x);
        assert(front.push(list.last()) =~= list);
        let inner = slot_in(front, x);
        let out = inner.push(list.last());
        assert(out.to_multiset() =~= list.to_multiset().insert(x));
        if is_lined_up(list) {
            assert forall|i: int, j: int| 0 <= i < j < front.len() implies !sooner(
                #[trigger] front[j].key,
                #[trigger] front[i].key,
            ) by {
                assert(front[i] == list[i] && front[j] == list[j]);
            }
            assert(is_lined_up(front));
            assert forall|i: int, j: int| 0 <= i < j < out.len() implies !sooner(
                #[trigger] out[j].key,
                #[trigger] out[i].key,
            ) by {
                if j == inner.len() {
                    // Every call of the front and the new one is not after the last.
                    assert(inner.to_multiset().contains(inner[i]));
                    assert(front.to_multiset().insert(x).contains(inner[i]));
                    if inner[i] == x {
                        lemma_sooner_order(x.key, list.last().key, x.key);
                    } else {
                        assert(front.to_multiset().contains(inner[i]));
                        assert(front.contains(inner[i]));
                        let k = choose|k: int| 0 <= k < front.len() && front[k] == inner[i];
                        assert(list[k] == inner[i]);
                        assert(!sooner(list[list.len() - 1].key, list[k].key));
                    }
                }
            }
        }
    }
}

/// Whether no call stands behind one that it is ordered before.
pub open spec fn is_lined_up(list: Seq<Slotted>) -> bool {
    forall|i: int, j: int|
        0 <= i < j < list.len() ==> !sooner(#[trigger] list[j].key, #[trigger] list[i].key)
}

/// The order of calls is total.
proof fn lemma_sooner_order(a: SortKey, b: SortKey, c: SortKey)
    ensures
        !sooner(a, a),
        !(sooner(a, b) && sooner(b, a)),
        sooner(a, b) && sooner(b, c) ==> sooner(a, c),
        !sooner(a, b) && !sooner(b, c) ==> !sooner(a, c),
        !sooner(a, b) && !sooner(b, a) ==> a == b,
{
    lemma_text_order(a.name, b.name, c.name);
    lemma_text_order(a.identity, b.identity, c.identity);
    lemma_text_order(c.name, b.name, a.name);
    lemma_text_order(c.identity, b.identity, a.identity);
}

proof fn lemma_text_order(a: Seq<char>, b: Seq<char>, c: Seq<char>)
    ensures
        !precedes(a, a),
        !(precedes(a, b) && precedes(b, a)),
        precedes(a, b) && precedes(b, c) ==> precedes(a, c),
        precedes(a, b) || precedes(b, a) || a == b,
        precedes(a, c) || precedes(c, a) || a == c,
        precedes(c, b) || precedes(b, c) || b == c,
        precedes(a, c) ==> precedes(a, b) || precedes(b, c),
{
    if precedes(a, a) {
        crate::text::lemma_precedes_asymmetric(a, a);
    }
    if precedes(a, b) {
        crate::text::lemma_precedes_asymmetric(a, b);
        if precedes(b, c) {
            crate::text::lemma_precedes_transitive(a, b, c);
        }
    }
    crate::text::lemma_precedes_total(a, b);
    crate::text::lemma_precedes_total(a, c);
    crate::text::lemma_precedes_total(c, b);
    if precedes(b, a) && precedes(a, c) {
        crate::text::lemma_precedes_transitive(b, a, c);
    }
}

/// Putting calls in order keeps each of them, and leaves none behind one that
/// it is ordered before.
pub proof fn lemma_in_order(list: Seq<Slotted>)
    ensures
        in_order(list).to_multiset() == list.to_multiset(),
        in_order(list).len() == list.len(),
        is_lined_up(in_order(list)),
    decreases list.len(),
{
    broadcast use vstd::seq_lib::group_to_multiset_ensures;

    if list.len() > 0 {
        lemma_in_order(list.drop_last());
        lemma_slot_in(in_order(list.drop_last()), list.last());
        assert(list.drop_last().push(list.last()) =~= list);
    } else {
        assert(list =~= seq![]);
    }
}

/// What calls are ordered by.
pub open spec fn keys(list: Seq<Slotted>) -> Seq<SortKey> {
    Seq::new(list.len(), |k: int| list[k].key)
}

/// Whether calls of the same identity have the same name.
pub open spec fn names_agree(
    paths: Seq<Seq<char>>,
    a: Seq<Arrived>,
    b: Seq<Arrived>,
) -> bool {
    forall|i: int, j: int|
        0 <= i < a.len() && 0 <= j < b.len() && identity_of(paths, (#[trigger] a[i]).request)
            == identity_of(paths, (#[trigger] b[j]).request) ==> a[i].request.name
            == b[j].request.name
}

proof fn lemma_keys_slot_in(list: Seq<Slotted>, x: Slotted)
    ensures
        keys(slot_in(list, x)).to_multiset() == keys(list).to_multiset().insert(x.key),
    decreases list.len(),
{
    broadcast use vstd::seq_lib::group_to_multiset_ensures;

    if list.len() == 0 || !sooner(x.key, list.last().key) {
        assert(keys(list.push(x)) =~= keys(list).push(x.key));
    } else {
        let front = list.drop_last();
        lemma_keys_slot_in(front, x);
        assert(keys(slot_in(front, x).push(list.last())) =~= keys(slot_in(front, x)).push(
            list.last().key,
        ));
        assert(keys(list) =~= keys(front).push(list.last().key));
        assert(keys(slot_in(list, x)).to_multiset() =~= keys(list).to_multiset().insert(x.key));
    }
}

proof fn lemma_keys_in_order(list: Seq<Slotted>)
    ensures
        keys(in_order(list)).to_multiset() == keys(list).to_multiset(),
    decreases list.len(),
{
    broadcast use vstd::seq_lib::group_to_multiset_ensures;

    if list.len() > 0 {
        lemma_keys_in_order(list.drop_last());
        lemma_keys_slot_in(in_order(list.drop_last()), list.last());
        assert(keys(list) =~= keys(list.drop_last()).push(list.last().key));
    } else {
        assert(keys(in_order(list)) =~= keys(list));
    }
}

/// The slot of the call that comes after `rank` others of its identity.
spec fn slot_at(recorded: Seq<Seq<char>>, identity: Seq<char>, rank: nat) -> usize {
    let at = ranked_place(recorded, identity, rank);
    if at >= 0 {
        at as usize
    } else {
        usize::MAX
    }
}

/// How many of the first `n` calls of an identity get a slot.
spec fn slot_hits(recorded: Seq<Seq<char>>, identity: Seq<char>, at: usize, n: nat) -> nat
    decreases n,
{
    if n == 0 {
        0
    } else {
        slot_hits(recorded, identity, at, (n - 1) as nat) + if slot_at(
            recorded,
            identity,
            (n - 1) as nat,
        ) == at {
            1nat
        } else {
            0nat
        }
    }
}

proof fn lemma_slotted_front(
    paths: Seq<Seq<char>>,
    recorded: Seq<Seq<char>>,
    a: Seq<Arrived>,
)
    requires
        a.len() > 0,
    ensures
        ({
            let ids = identities(paths, a);
            let last = SortKey {
                slot: slot_at(recorded, ids.last(), times_in(ids.drop_last(), ids.last())),
                name: a.last().request.name,
                identity: ids.last(),
            };
            keys(slotted(paths, recorded, a)) == keys(
                slotted(paths, recorded, a.drop_last()),
            ).push(last)
        }),
        identities(paths, a).drop_last() == identities(paths, a.drop_last()),
{
    let front = a.drop_last();
    let ids = identities(paths, a);
    assert(ids.drop_last() =~= identities(paths, front));
    assert(ids.take(a.len() - 1) =~= ids.drop_last());
    let whole = keys(slotted(paths, recorded, a));
    let part = keys(slotted(paths, recorded, front));
    assert forall|k: int| 0 <= k < front.len() implies whole[k] == part[k] by {
        assert(ids.take(k) =~= identities(paths, front).take(k));
    }
    assert(whole =~= part.push(whole.last()));
}

/// How often a key occurs is a function of how often its identity does.
proof fn lemma_key_count(
    paths: Seq<Seq<char>>,
    recorded: Seq<Seq<char>>,
    a: Seq<Arrived>,
    key: SortKey,
)
    requires
        forall|i: int|
            0 <= i < a.len() && identity_of(paths, (#[trigger] a[i]).request) == key.identity
                ==> a[i].request.name == key.name,
    ensures
        keys(slotted(paths, recorded, a)).to_multiset().count(key) == slot_hits(
            recorded,
            key.identity,
            key.slot,
            times_in(identities(paths, a), key.identity),
        ),
    decreases a.len(),
{
    broadcast use vstd::seq_lib::group_to_multiset_ensures;

    let whole = keys(slotted(paths, recorded, a));
    if a.len() == 0 {
        assert(whole =~= seq![]);
    } else {
        let front = a.drop_last();
        assert forall|i: int|
            0 <= i < front.len() && identity_of(paths, (#[trigger] front[i]).request)
                == key.identity implies front[i].request.name == key.name by {
            assert(front[i] == a[i]);
        }
        lemma_key_count(paths, recorded, front, key);
        lemma_slotted_front(paths, recorded, a);
        assert(a[a.len() - 1] == a.last());
    }
}

/// A key whose name is not that of its identity does not occur.
proof fn lemma_no_such_key(
    paths: Seq<Seq<char>>,
    recorded: Seq<Seq<char>>,
    a: Seq<Arrived>,
    key: SortKey,
)
    requires
        forall|i: int|
            0 <= i < a.len() && identity_of(paths, (#[trigger] a[i]).request) == key.identity
                ==> a[i].request.name != key.name,
    ensures
        keys(slotted(paths, recorded, a)).to_multiset().count(key) == 0,
{
    broadcast use vstd::seq_lib::group_to_multiset_ensures;

    let whole = keys(slotted(paths, recorded, a));
    if whole.contains(key) {
        let k = choose|k: int| 0 <= k < whole.len() && whole[k] == key;
        assert(identity_of(paths, a[k].request) == key.identity);
    }
}

proof fn lemma_times_count(list: Seq<Seq<char>>, x: Seq<char>)
    ensures
        times_in(list, x) == list.to_multiset().count(x),
    decreases list.len(),
{
    broadcast use vstd::seq_lib::group_to_multiset_ensures;

    if list.len() > 0 {
        lemma_times_count(list.drop_last(), x);
        assert(list.drop_last().push(list.last()) =~= list);
    } else {
        assert(list =~= seq![]);
    }
}

proof fn lemma_same_keys(
    paths: Seq<Seq<char>>,
    recorded: Seq<Seq<char>>,
    a: Seq<Arrived>,
    b: Seq<Arrived>,
)
    requires
        identities(paths, a).to_multiset() == identities(paths, b).to_multiset(),
        names_agree(paths, a, a),
        names_agree(paths, a, b),
        names_agree(paths, b, b),
    ensures
        keys(slotted(paths, recorded, a)).to_multiset() == keys(
            slotted(paths, recorded, b),
        ).to_multiset(),
{
    let one = keys(slotted(paths, recorded, a)).to_multiset();
    let other = keys(slotted(paths, recorded, b)).to_multiset();
    assert forall|key: SortKey| one.count(key) == other.count(key) by {
        lemma_times_count(identities(paths, a), key.identity);
        lemma_times_count(identities(paths, b), key.identity);
        let fits_a = forall|i: int|
            0 <= i < a.len() && identity_of(paths, (#[trigger] a[i]).request) == key.identity
                ==> a[i].request.name == key.name;
        let fits_b = forall|i: int|
            0 <= i < b.len() && identity_of(paths, (#[trigger] b[i]).request) == key.identity
                ==> b[i].request.name == key.name;
        if fits_a && fits_b {
            lemma_key_count(paths, recorded, a, key);
            lemma_key_count(paths, recorded, b, key);
        } else {
            lemma_no_such_key(paths, recorded, a, key);
            lemma_no_such_key(paths, recorded, b, key);
        }
    }
    assert(one =~= other);
}

/// The order in which the calls of a burst arrive is immaterial: the calls
/// that are scheduled come in the same order, whatever race they arrived in.
pub proof fn lemma_arrival_immaterial(
    paths: Seq<Seq<char>>,
    recorded: Seq<Seq<char>>,
    a: Seq<Arrived>,
    b: Seq<Arrived>,
)
    requires
        identities(paths, a).to_multiset() == identities(paths, b).to_multiset(),
        names_agree(paths, a, a),
        names_agree(paths, a, b),
        names_agree(paths, b, b),
    ensures
        identities(paths, lined_up(paths, recorded, a)) == identities(
            paths,
            lined_up(paths, recorded, b),
        ),
{
    let one = in_order(slotted(paths, recorded, a));
    let other = in_order(slotted(paths, recorded, b));
    lemma_same_keys(paths, recorded, a, b);
    lemma_keys_in_order(slotted(paths, recorded, a));
    lemma_keys_in_order(slotted(paths, recorded, b));
    lemma_in_order(slotted(paths, recorded, a));
    lemma_in_order(slotted(paths, recorded, b));
    let leq = |x: SortKey, y: SortKey| !sooner(y, x);
    assert(vstd::relations::total_ordering(leq)) by {
        assert forall|x: SortKey| #[trigger] leq(x, x) by {
            lemma_sooner_order(x, x, x);
        }
        assert forall|x: SortKey, y: SortKey| #[trigger] leq(x, y) && #[trigger] leq(
            y,
            x,
        ) implies x == y by {
            lemma_sooner_order(x, y, x);
        }
        assert forall|x: SortKey, y: SortKey, z: SortKey| #[trigger] leq(x, y) && #[trigger] leq(
            y,
            z,
        ) implies leq(x, z) by {
            lemma_sooner_order(z, y, x);
        }
        assert forall|x: SortKey, y: SortKey| #[trigger] leq(x, y) || #[trigger] leq(y, x) by {
            lemma_sooner_order(x, y, x);
        }
    }
    lemma_keys_sorted(one);
    lemma_keys_sorted(other);
    vstd::seq_lib::lemma_sorted_unique(keys(one), keys(other), leq);
    lemma_keys_name_identity(paths, recorded, a);
    lemma_keys_name_identity(paths, recorded, b);
    assert(identities(paths, lined_up(paths, recorded, a)) =~= identities(
        paths,
        lined_up(paths, recorded, b),
    )) by {
        assert(keys(one).len() == keys(other).len());
        assert forall|k: int| 0 <= k < one.len() implies one[k].key == other[k].key by {
            assert(keys(one)[k] == keys(other)[k]);
        }
    }
}

proof fn lemma_keys_sorted(list: Seq<Slotted>)
    requires
        is_lined_up(list),
    ensures
        vstd::relations::sorted_by(keys(list), |x: SortKey, y: SortKey| !sooner(y, x)),
{
}

/// The key of each call in order holds its identity.
proof fn lemma_keys_name_identity(
    paths: Seq<Seq<char>>,
    recorded: Seq<Seq<char>>,
    a: Seq<Arrived>,
)
    ensures
        ({
            let list = in_order(slotted(paths, recorded, a));
            forall|k: int|
                0 <= k < list.len() ==> (#[trigger] list[k]).key.identity == identity_of(
                    paths,
                    list[k].arrived.request,
                )
        }),
{
    broadcast use vstd::seq_lib::group_to_multiset_ensures;

    let from = slotted(paths, recorded, a);
    let list = in_order(from);
    lemma_in_order(from);
    assert forall|k: int| 0 <= k < list.len() implies (#[trigger] list[k]).key.identity
        == identity_of(paths, list[k].arrived.request) by {
        assert(list.to_multiset().contains(list[k]));
        assert(from.contains(list[k]));
        let i = choose|i: int| 0 <= i < from.len() && from[i] == list[k];
        assert(from[i].key.identity == identities(paths, a)[i]);
    }
}

/// A call that has arrived.
#[derive(Debug)]
pub struct Arrival {
    pub call: String,
    pub request: EffectRequest,
}

impl View for Arrival {
    type V = Arrived;

    open spec fn view(&self) -> Arrived {
        Arrived { call: self.call@, request: self.request@ }
    }
}

/// A call with what it is ordered by.
struct Placed {
    slot: usize,
    identity: Digest,
    arrival: Arrival,
}

impl View for Placed {
    type V = Slotted;

    closed spec fn view(&self) -> Slotted {
        Slotted {
            key: SortKey {
                slot: self.slot,
                name: self.arrival.request.name@,
                identity: self.identity@,
            },
            arrived: self.arrival@,
        }
    }
}

/// Whether a call is ordered before another.
fn is_sooner(a: &Placed, b: &Placed) -> (r: bool)
    ensures
        r == sooner(a@.key, b@.key),
{
    if a.slot != b.slot {
        return a.slot < b.slot;
    }
    let one = a.arrival.request.name.as_str();
    let other = b.arrival.request.name.as_str();
    if before(one, other) {
        return true;
    }
    if !same(one, other) {
        return false;
    }
    before(a.identity.as_str(), b.identity.as_str())
}

/// Puts a call behind those that are not ordered after it.
fn put_in(list: &mut Vec<Placed>, x: Placed)
    ensures
        views(final(list)@) == slot_in(views(old(list)@), x@),
{
    let ghost start = list@;
    let ghost all = views(list@);
    let mut i: usize = list.len();
    assert(all.take(i as int) =~= all);
    assert(slot_in(all, x@) =~= slot_in(all.take(i as int), x@) + all.skip(i as int));
    while i > 0 && is_sooner(&x, &list[i - 1])
        invariant
            list@ == start,
            all == views(start),
            i <= start.len(),
            slot_in(all, x@) == slot_in(all.take(i as int), x@) + all.skip(i as int),
        decreases i,
    {
        proof {
            let now = all.take(i as int);
            assert(now.drop_last() =~= all.take(i - 1));
            assert(now.last() == all[i - 1]);
            assert(slot_in(now, x@) =~= slot_in(all.take(i - 1), x@).push(all[i - 1]));
            assert(slot_in(all.take(i - 1), x@).push(all[i - 1]) + all.skip(i as int) =~= slot_in(
                all.take(i - 1),
                x@,
            ) + all.skip(i - 1));
        }
        i -= 1;
    }
    proof {
        let now = all.take(i as int);
        if i > 0 {
            assert(now.last() == start[i - 1]@);
        }
        assert(slot_in(now, x@) == now.push(x@));
    }
    list.insert(i, x);
    assert(views(list@) =~= slot_in(all, x@));
}

/// The first place of an identity that is not used yet.
fn free_place(recorded: &Vec<Digest>, used: &Vec<bool>, identity: &Digest) -> (r: Option<usize>)
    requires
        used@.len() == recorded@.len(),
    ensures
        match r {
            Some(i) => {
                &&& i < recorded@.len()
                &&& recorded@[i as int]@ == identity@
                &&& !used@[i as int]
                &&& forall|k: int|
                    0 <= k < i && (#[trigger] recorded@[k])@ == identity@ ==> used@[k]
            },
            None => forall|k: int|
                0 <= k < recorded@.len() && (#[trigger] recorded@[k])@ == identity@ ==> used@[k],
        },
{
    let mut i: usize = 0;
    while i < recorded.len()
        invariant
            i <= recorded@.len(),
            used@.len() == recorded@.len(),
            forall|k: int| 0 <= k < i && (#[trigger] recorded@[k])@ == identity@ ==> used@[k],
        decreases recorded@.len() - i,
    {
        if !used[i] && recorded[i].same(identity) {
            return Some(i);
        }
        i += 1;
    }
    None
}

/// Whether exactly those places are used that the calls so far have taken:
/// the first ones of each identity.
spec fn used_up(recorded: Seq<Seq<char>>, used: Seq<bool>, sofar: Seq<Seq<char>>) -> bool {
    &&& used.len() == recorded.len()
    &&& forall|i: int|
        0 <= i < recorded.len() ==> #[trigger] used[i] == (times_in(
            recorded.take(i),
            recorded[i],
        ) < times_in(sofar, recorded[i]))
}

proof fn lemma_free_place(
    recorded: Seq<Seq<char>>,
    used: Seq<bool>,
    sofar: Seq<Seq<char>>,
    identity: Seq<char>,
    found: Option<usize>,
)
    requires
        recorded.len() <= usize::MAX,
        used_up(recorded, used, sofar),
        match found {
            Some(i) => {
                &&& i < recorded.len()
                &&& recorded[i as int] == identity
                &&& !used[i as int]
                &&& forall|k: int|
                    0 <= k < i && (#[trigger] recorded[k]) == identity ==> used[k]
            },
            None => forall|k: int|
                0 <= k < recorded.len() && (#[trigger] recorded[k]) == identity ==> used[k],
        },
    ensures
        match found {
            Some(i) => {
                &&& slot_at(recorded, identity, times_in(sofar, identity)) == i
                &&& used_up(recorded, used.update(i as int, true), sofar.push(identity))
            },
            None => {
                &&& slot_at(recorded, identity, times_in(sofar, identity)) == usize::MAX
                &&& used_up(recorded, used, sofar.push(identity))
            },
        },
{
    let rank = times_in(sofar, identity);
    lemma_ranked_place(recorded, identity, rank);
    let at = ranked_place(recorded, identity, rank);
    assert forall|x: Seq<char>| times_in(sofar.push(identity), x) == times_in(sofar, x) + if x
        == identity {
        1nat
    } else {
        0nat
    } by {
        lemma_times_push(sofar, identity, x);
    }
    match found {
        Some(i) => {
            let i = i as int;
            let here = times_in(recorded.take(i), identity);
            assert(here >= rank);
            if at < 0 {
                lemma_times_grow(recorded, i, recorded.len() as int, identity);
                assert(recorded.take(recorded.len() as int) =~= recorded);
            } else {
                assert(!used[at]);
                if at < i {
                    assert(used[at]);
                } else if at > i {
                    lemma_times_grow(recorded, i, at, identity);
                }
            }
            assert(at == i);
            let after = used.update(i, true);
            assert forall|k: int| 0 <= k < recorded.len() implies #[trigger] after[k] == (times_in(
                recorded.take(k),
                recorded[k],
            ) < times_in(sofar.push(identity), recorded[k])) by {
                if k != i {
                    assert(used[k] == (times_in(recorded.take(k), recorded[k]) < times_in(
                        sofar,
                        recorded[k],
                    )));
                    if recorded[k] == identity {
                        lemma_rank_unique(recorded, identity, k);
                    }
                }
            }
        },
        None => {
            if at >= 0 {
                assert(used[at]);
            }
            assert forall|k: int| 0 <= k < recorded.len() implies #[trigger] used[k] == (times_in(
                recorded.take(k),
                recorded[k],
            ) < times_in(sofar.push(identity), recorded[k])) by {}
        },
    }
}

/// The calls of a burst in the order in which they are scheduled.
#[verifier::rlimit(30)]
fn line_up(canon: &Canonicalizer, recorded: &Vec<Digest>, arrived: Vec<Arrival>) -> (r: Vec<Arrival>)
    ensures
        views(r@) == lined_up(canon@, views(recorded@), views(arrived@)),
{
    let ghost all = views(arrived@);
    let ghost places = views(recorded@);
    let ghost ids = identities(canon@, all);
    let ghost wanted = slotted(canon@, places, all);
    let mut used: Vec<bool> = Vec::new();
    let mut n: usize = 0;
    while n < recorded.len()
        invariant
            n <= recorded@.len(),
            used@.len() == n,
            forall|k: int| 0 <= k < n ==> !(#[trigger] used@[k]),
        decreases recorded@.len() - n,
    {
        used.push(false);
        n += 1;
    }
    let mut list: Vec<Placed> = Vec::new();
    let mut rest = arrived;
    let ghost total = all.len();
    let ghost mut k: nat = 0;
    proof {
        assert(views(list@) =~= seq![]);
        assert(wanted.take(0) =~= seq![]);
        assert(ids.take(0) =~= seq![]);
        assert(used_up(places, used@, ids.take(0)));
    }
    while rest.len() > 0
        invariant
            all.len() == total,
            k + rest@.len() == total,
            forall|i: int|
                0 <= i < rest@.len() ==> (#[trigger] rest@[i])@ == all[k + i],
            places == views(recorded@),
            n == places.len(),
            ids == identities(canon@, all),
            wanted == slotted(canon@, places, all),
            used_up(places, used@, ids.take(k as int)),
            views(list@) == in_order(wanted.take(k as int)),
        decreases rest@.len(),
    {
        let ghost here = k as int;
        assert(rest@[0]@ == all[here]);
        let ghost before_rest = rest@;
        let arrival = rest.remove(0);
        assert forall|i: int| 0 <= i < rest@.len() implies (#[trigger] rest@[i])@ == all[here + 1
            + i] by {
            assert(rest@[i] == before_rest[i + 1]);
        }
        assert(arrival@ == all[here]);
        let identity = arrival.request.identity(canon);
        assert(identity@ == ids[here]);
        let found = free_place(recorded, &used, &identity);
        proof {
            assert forall|j: int| 0 <= j < recorded@.len() implies places[j] == (
            #[trigger] recorded@[j])@ by {}
            lemma_free_place(places, used@, ids.take(here), ids[here], found);
            assert(ids.take(here + 1) =~= ids.take(here).push(ids[here]));
        }
        let slot: usize = match found {
            Some(i) => {
                used.set(i, true);
                i
            },
            None => usize::MAX,
        };
        let placed = Placed { slot, identity, arrival };
        proof {
            assert(placed@ == wanted[here]);
            assert(wanted.take(here + 1).drop_last() =~= wanted.take(here));
            assert(wanted.take(here + 1).last() == wanted[here]);
        }
        put_in(&mut list, placed);
        proof {
            k = k + 1;
        }
    }
    assert(wanted.take(k as int) =~= wanted);
    let ghost sorted = views(list@);
    let mut out: Vec<Arrival> = Vec::new();
    let ghost size = sorted.len();
    while list.len() > 0
        invariant
            sorted.len() == size,
            out@.len() + list@.len() == size,
            forall|i: int|
                0 <= i < list@.len() ==> (#[trigger] list@[i])@ == sorted[out@.len() + i],
            forall|i: int| 0 <= i < out@.len() ==> (#[trigger] out@[i])@ == sorted[i].arrived,
        decreases list@.len(),
    {
        let ghost before_list = list@;
        let placed = list.remove(0);
        assert(before_list[0]@ == sorted[out@.len() as int]);
        out.push(placed.arrival);
        assert forall|i: int| 0 <= i < list@.len() implies (#[trigger] list@[i])@
            == sorted[out@.len() + i] by {
            assert(list@[i] == before_list[i + 1]);
        }
    }
    assert(views(out@) =~= lined_up(canon@, places, all));
    out
}

// ---------------------------------------------------------------------------
// The barrier
// ---------------------------------------------------------------------------

/// A burst of concurrent calls that is assembling or being answered.
#[derive(Debug)]
pub struct Batch {
    /// How many calls the recording says belong here.
    pub expected: usize,
    /// The calls that wait to be scheduled.
    pub arrived: Vec<Arrival>,
    /// The outcomes of the calls that were scheduled and not answered yet.
    pub outcomes: Ledger<Outcome>,
    /// The calls in the order in which they are answered.
    pub release: Vec<String>,
    /// How many have been answered. A call is only answered when the cursor
    /// points at it.
    pub cursor: usize,
    pub scheduled: bool,
}

/// What a burst is, for contracts.
#[verifier::ext_equal]
pub struct BatchModel {
    pub expected: usize,
    pub arrived: Seq<Arrived>,
    pub outcomes: Map<Seq<char>, OutcomeModel>,
    pub release: Seq<Seq<char>>,
    pub cursor: usize,
    pub scheduled: bool,
}

impl View for Batch {
    type V = BatchModel;

    open spec fn view(&self) -> BatchModel {
        BatchModel {
            expected: self.expected,
            arrived: views(self.arrived@),
            outcomes: self.outcomes@,
            release: crate::text::texts(self.release@),
            cursor: self.cursor,
            scheduled: self.scheduled,
        }
    }
}

/// Whether a replay in a state answers a batch with these results: in the order
/// in which it completes them, each with the outcome that the agent observes.
pub open spec fn replayed_batch(
    s: ReplayState,
    requests: Seq<RequestModel>,
    done: Seq<(usize, Outcome)>,
) -> bool {
    let n = requests.len();
    &&& completion(done) == completion_order(s, n)
    &&& Seq::new(n, |k: int| done[k].1@) == batch_performed(
        batch_begun(s, n),
        requests,
        completion_order(s, n),
        n,
        batch_tag(s.next_batch, n),
    ).0
}

/// Where concurrent calls are held during a replay.
#[derive(Debug)]
pub struct Barrier {
    /// The bursts in flight, by the number the caller reported.
    batches: HashMap<u64, Batch>,
    /// The reported numbers in the order of their first appearance, by which
    /// they are lined up with the bursts of the recording.
    seen: Vec<u64>,
    /// The identities of the calls of each burst of the recording.
    recorded: Vec<Vec<Digest>>,
    /// The identity policy of the recording.
    canon: Canonicalizer,
    next_call: u64,
}

/// What a barrier is, for contracts.
#[verifier::ext_equal]
pub struct BarrierModel {
    pub batches: Map<u64, BatchModel>,
    pub seen: Seq<u64>,
    pub recorded: Seq<Seq<Seq<char>>>,
    pub paths: Seq<Seq<char>>,
    pub next_call: u64,
}

impl View for Barrier {
    type V = BarrierModel;

    closed spec fn view(&self) -> BarrierModel {
        BarrierModel {
            batches: self.batches@.map_values(|b: Batch| b@),
            seen: self.seen@,
            recorded: digest_lists(self.recorded@),
            paths: self.canon@,
            next_call: self.next_call,
        }
    }
}

/// The number behind another, from the start again behind the last.
pub open spec fn next_number(n: u64) -> u64 {
    if n == u64::MAX {
        0
    } else {
        (n + 1) as u64
    }
}

/// The number behind another, from the start again behind the last.
pub(crate) fn count_on(n: u64) -> (r: u64)
    ensures
        r == next_number(n),
{
    if n == u64::MAX {
        0
    } else {
        n + 1
    }
}

/// What a call is known by.
pub open spec fn call_name(n: u64) -> Seq<char> {
    "c"@ + decimal(n as nat)
}

/// What a call is known by.
pub(crate) fn name_call(n: u64) -> (r: String)
    ensures
        r@ == call_name(n),
{
    let mut name = "c".to_owned();
    name.append(show(n).as_str());
    name
}

/// What a call finds when it arrives.
#[derive(Debug)]
pub enum Entry {
    /// It belongs to no burst, and is performed by itself.
    Alone { request: EffectRequest },
    /// It has to wait for the rest of its burst.
    Gathering { expected: usize },
    /// It completes its burst, which can be scheduled.
    Complete,
}

/// What a call finds when it arrives, for contracts.
pub enum EntryModel {
    Alone { request: RequestModel },
    Gathering { expected: usize },
    Complete,
}

impl View for Entry {
    type V = EntryModel;

    open spec fn view(&self) -> EntryModel {
        match *self {
            Entry::Alone { request } => EntryModel::Alone { request: request@ },
            Entry::Gathering { expected } => EntryModel::Gathering { expected },
            Entry::Complete => EntryModel::Complete,
        }
    }
}

/// The reported numbers once one more has appeared.
pub open spec fn seen_with(seen: Seq<u64>, batch: u64) -> Seq<u64> {
    if place_in(seen, batch) is Some {
        seen
    } else {
        seen.push(batch)
    }
}

/// How many calls the recording has in the burst of a reported number. The
/// numbers need not agree with those of the recording: they are lined up by
/// position.
pub open spec fn expected_in(b: BarrierModel, batch: u64) -> nat {
    let seen = seen_with(b.seen, batch);
    match place_in(seen, batch) {
        Some(i) => if i < b.recorded.len() {
            b.recorded[i].len()
        } else {
            1
        },
        None => 1,
    }
}

/// A burst that nothing has arrived for.
pub open spec fn fresh_batch(expected: nat) -> BatchModel {
    BatchModel {
        expected: expected as usize,
        arrived: seq![],
        outcomes: Map::empty(),
        release: seq![],
        cursor: 0,
        scheduled: false,
    }
}

/// The burst that a call joins.
pub open spec fn joined_batch(b: BarrierModel, batch: u64) -> BatchModel {
    if b.batches.dom().contains(batch) {
        b.batches[batch]
    } else {
        fresh_batch(expected_in(b, batch))
    }
}

/// What a call finds when it arrives, and the barrier after it.
pub open spec fn entered(b: BarrierModel, request: RequestModel, batch: Option<u64>) -> (
    EntryModel,
    BarrierModel,
) {
    let call = call_name(b.next_call);
    let counted = BarrierModel { next_call: next_number(b.next_call), ..b };
    match batch {
        None => (EntryModel::Alone { request }, counted),
        Some(id) => {
            let noted = BarrierModel { seen: seen_with(b.seen, id), ..counted };
            let expected = expected_in(b, id);
            if expected <= 1 {
                (EntryModel::Alone { request }, noted)
            } else {
                let found = joined_batch(b, id);
                let after = BatchModel {
                    arrived: found.arrived.push(Arrived { call, request }),
                    ..found
                };
                (
                    if after.arrived.len() >= found.expected {
                        EntryModel::Complete
                    } else {
                        EntryModel::Gathering { expected: expected as usize }
                    },
                    BarrierModel { batches: noted.batches.insert(id, after), ..noted },
                )
            }
        },
    }
}

/// The calls that a burst is scheduled with, in their order: none where there
/// is no such burst or it has been scheduled.
pub open spec fn to_schedule(b: BarrierModel, batch: u64) -> Option<Seq<Arrived>> {
    if b.batches.dom().contains(batch) && !b.batches[batch].scheduled {
        let recorded = match place_in(b.seen, batch) {
            Some(i) => if i < b.recorded.len() {
                b.recorded[i]
            } else {
                seq![]
            },
            None => seq![],
        };
        Some(lined_up(b.paths, recorded, b.batches[batch].arrived))
    } else {
        None
    }
}

/// The requests of calls.
pub open spec fn requests_of(calls: Seq<Arrived>) -> Seq<RequestModel> {
    Seq::new(calls.len(), |k: int| calls[k].request)
}

/// The outcomes of calls, once the first `n` results are in.
pub open spec fn outcomes_in(
    known: Map<Seq<char>, OutcomeModel>,
    calls: Seq<Arrived>,
    done: Seq<(usize, Outcome)>,
    n: nat,
) -> Map<Seq<char>, OutcomeModel>
    decreases n,
{
    if n == 0 {
        known
    } else {
        outcomes_in(known, calls, done, (n - 1) as nat).insert(
            calls[done[n - 1].0 as int].call,
            done[n - 1].1@,
        )
    }
}

/// A burst once its results are in: they are answered in the order in which
/// they completed.
pub open spec fn settled_batch(
    batch: BatchModel,
    calls: Seq<Arrived>,
    done: Seq<(usize, Outcome)>,
) -> BatchModel {
    BatchModel {
        arrived: seq![],
        outcomes: outcomes_in(batch.outcomes, calls, done, done.len()),
        release: batch.release + Seq::new(done.len(), |k: int| calls[done[k].0 as int].call),
        scheduled: true,
        ..batch
    }
}

/// Whether it is a call's turn to be answered: the cursor points at it, or at
/// nothing.
pub open spec fn is_turn(b: BarrierModel, batch: u64, call: Seq<char>) -> bool {
    if b.batches.dom().contains(batch) {
        let found = b.batches[batch];
        found.cursor < found.release.len() ==> found.release[found.cursor as int] == call
    } else {
        true
    }
}

/// What a call of a burst is answered.
pub open spec fn answer_to(b: BarrierModel, batch: u64, call: Seq<char>) -> OutcomeModel {
    if b.batches.dom().contains(batch) && b.batches[batch].outcomes.dom().contains(call) {
        b.batches[batch].outcomes[call]
    } else {
        OutcomeModel::Failure {
            code: "samsara_unscheduled"@,
            message: "call was not scheduled with its batch"@,
        }
    }
}

/// The barrier once a call of a burst has been answered.
pub open spec fn without_answer(b: BarrierModel, batch: u64, call: Seq<char>) -> BarrierModel {
    if b.batches.dom().contains(batch) {
        let found = b.batches[batch];
        BarrierModel {
            batches: b.batches.insert(
                batch,
                BatchModel { outcomes: found.outcomes.remove(call), ..found },
            ),
            ..b
        }
    } else {
        b
    }
}

/// The barrier once an answer has been delivered: the next call of the burst
/// has its turn, and a burst that is through is forgotten.
pub open spec fn moved_on(b: BarrierModel, batch: u64) -> BarrierModel {
    if b.batches.dom().contains(batch) {
        let found = b.batches[batch];
        if found.cursor + 1 >= found.release.len() {
            BarrierModel { batches: b.batches.remove(batch), ..b }
        } else {
            BarrierModel {
                batches: b.batches.insert(
                    batch,
                    BatchModel { cursor: (found.cursor + 1) as usize, ..found },
                ),
                ..b
            }
        }
    } else {
        b
    }
}

/// The reply to a call that comes when the replay is over.
pub open spec fn closed_outcome() -> OutcomeModel {
    OutcomeModel::Failure { code: "samsara_finished"@, message: "replay session already closed"@ }
}

/// The reply to a call that comes when the replay is over.
pub fn answer_closed() -> (r: Outcome)
    ensures
        r@ == closed_outcome(),
{
    Outcome::err("samsara_finished", "replay session already closed")
}

impl Barrier {
    /// A barrier for the replay of a recording.
    pub fn new(trace: &Trace) -> (r: Self)
        ensures
            r@ == (BarrierModel {
                batches: Map::empty(),
                seen: seq![],
                recorded: layout(trace@.events).members,
                paths: trace@.header.canonicalizer,
                next_call: 0,
            }),
    {
        let barrier = Barrier {
            batches: HashMap::new(),
            seen: Vec::new(),
            recorded: batch_layout(trace),
            canon: trace.header.canonicalizer.clone(),
            next_call: 0,
        };
        assert(barrier@.batches =~= Map::empty());
        barrier
    }

    /// Forgets what the last run of the agent left behind.
    pub fn reset(&mut self)
        ensures
            final(self)@ == (BarrierModel {
                batches: Map::empty(),
                seen: seq![],
                next_call: 0,
                ..old(self)@
            }),
    {
        self.batches.clear();
        self.seen.clear();
        self.next_call = 0;
        assert(self@.batches =~= Map::empty());
    }

    /// Puts a burst back.
    fn keep(&mut self, id: u64, batch: Batch)
        ensures
            final(self)@ == (BarrierModel {
                batches: old(self)@.batches.insert(id, batch@),
                ..old(self)@
            }),
    {
        let ghost start = *self;
        self.batches.insert(id, batch);
        assert(self@.batches =~= start@.batches.insert(id, batch@));
    }

    /// Takes a burst out, if it is in flight.
    fn take(&mut self, id: u64) -> (r: Option<Batch>)
        ensures
            match r {
                Some(batch) => old(self)@.batches.dom().contains(id) && batch@
                    == old(self)@.batches[id],
                None => !old(self)@.batches.dom().contains(id),
            },
            final(self)@ == (BarrierModel { batches: old(self)@.batches.remove(id), ..old(self)@ }),
    {
        let ghost start = *self;
        let found = self.batches.remove(&id);
        assert(self@.batches =~= start@.batches.remove(id));
        found
    }

    /// How many calls the recording has in the burst of a reported number.
    fn note(&mut self, id: u64) -> (r: usize)
        ensures
            r == expected_in(old(self)@, id),
            final(self)@ == (BarrierModel { seen: seen_with(old(self)@.seen, id), ..old(self)@ }),
    {
        let ghost start = *self;
        let index: usize = match find_id(&self.seen, id) {
            Some(i) => i,
            None => {
                let at: usize = self.seen.len();
                self.seen.push(id);
                proof {
                    assert(self.seen@.drop_last() =~= start.seen@);
                }
                at
            },
        };
        assert(place_in(self.seen@, id) == Some(index as int));
        if index < self.recorded.len() {
            assert(digest_lists(self.recorded@)[index as int].len()
                == self.recorded@[index as int]@.len());
            self.recorded[index].len()
        } else {
            1
        }
    }

    /// A call arrives, with the number of its burst if it was reported in one.
    /// Gives what the call is known by, and what it finds.
    pub fn enter(&mut self, request: EffectRequest, batch: Option<u64>) -> (r: (String, Entry))
        ensures
            r.0@ == call_name(old(self)@.next_call),
            (r.1@, final(self)@) == entered(old(self)@, request@, batch),
    {
        let ghost start = self@;
        let ghost asked = request@;
        let call = name_call(self.next_call);
        self.next_call = count_on(self.next_call);
        let id: u64 = match batch {
            Some(id) => id,
            None => return (call, Entry::Alone { request }),
        };
        let expected: usize = self.note(id);
        if expected <= 1 {
            return (call, Entry::Alone { request });
        }
        let mut found = match self.take(id) {
            Some(found) => found,
            None => {
                let fresh = Batch {
                    expected,
                    arrived: Vec::new(),
                    outcomes: Ledger::new(),
                    release: Vec::new(),
                    cursor: 0,
                    scheduled: false,
                };
                assert(fresh@ =~= fresh_batch(expected as nat));
                fresh
            },
        };
        assert(found@ == joined_batch(start, id));
        let ghost joined = found@;
        let ghost came = found.arrived@;
        let arrival = Arrival { call: call.clone(), request };
        let ghost one = arrival@;
        found.arrived.push(arrival);
        assert(views(found.arrived@) =~= views(came).push(one));
        let complete = found.arrived.len() >= found.expected;
        assert(found@ =~= (BatchModel { arrived: joined.arrived.push(one), ..joined }));
        self.keep(id, found);
        assert(self@ =~= entered(start, asked, batch).1);
        if complete {
            (call, Entry::Complete)
        } else {
            (call, Entry::Gathering { expected })
        }
    }

    /// Whether a burst has been scheduled.
    pub fn is_scheduled(&self, id: u64) -> (r: bool)
        ensures
            r == (self@.batches.dom().contains(id) && self@.batches[id].scheduled),
    {
        match self.batches.get(&id) {
            Some(batch) => batch.scheduled,
            None => false,
        }
    }

    /// How many calls of a burst wait to be scheduled.
    pub fn waiting(&self, id: u64) -> (r: usize)
        ensures
            r == if self@.batches.dom().contains(id) {
                self@.batches[id].arrived.len()
            } else {
                0
            },
    {
        match self.batches.get(&id) {
            Some(batch) => batch.arrived.len(),
            None => 0,
        }
    }

    /// Takes the calls that a burst is scheduled with, in their order. The
    /// burst is taken out until its results are in.
    fn gather(&mut self, id: u64) -> (r: Option<(Batch, Vec<Arrival>)>)
        ensures
            match r {
                Some((batch, calls)) => {
                    &&& to_schedule(old(self)@, id) == Some(views(calls@))
                    &&& batch@ == (BatchModel {
                        arrived: seq![],
                        scheduled: true,
                        ..old(self)@.batches[id]
                    })
                    &&& final(self)@ == (BarrierModel {
                        batches: old(self)@.batches.remove(id),
                        ..old(self)@
                    })
                },
                None => to_schedule(old(self)@, id) is None && final(self)@ == old(self)@,
            },
    {
        let ghost start = self@;
        match self.take(id) {
            None => {
                assert(self@ =~= start);
                None
            },
            Some(batch) => {
                if batch.scheduled {
                    self.keep(id, batch);
                    assert(self@ =~= start);
                    return None;
                }
                let mut batch = batch;
                let ghost found = batch@;
                let mut arrived: Vec<Arrival> = Vec::new();
                std::mem::swap(&mut arrived, &mut batch.arrived);
                batch.scheduled = true;
                assert(views(batch.arrived@) =~= seq![]);
                assert(batch@ =~= (BatchModel { arrived: seq![], scheduled: true, ..found }));
                let none: Vec<Digest> = Vec::new();
                assert(views(none@) =~= seq![]);
                let recorded = match find_id(&self.seen, id) {
                    Some(i) => if i < self.recorded.len() {
                        &self.recorded[i]
                    } else {
                        &none
                    },
                    None => &none,
                };
                let calls = line_up(&self.canon, recorded, arrived);
                Some((batch, calls))
            },
        }
    }

    /// Puts the results of a burst in: they are answered in the order in
    /// which they completed.
    fn settle(
        &mut self,
        id: u64,
        batch: Batch,
        calls: &Vec<Arrival>,
        done: Vec<(usize, Outcome)>,
    )
        requires
            is_order(completion(done@), calls@.len()),
            batch@.arrived == Seq::<Arrived>::empty(),
            batch@.scheduled,
        ensures
            final(self)@ == (BarrierModel {
                batches: old(self)@.batches.insert(
                    id,
                    settled_batch(batch@, views(calls@), done@),
                ),
                ..old(self)@
            }),
    {
        let ghost start = batch@;
        let ghost all = views(calls@);
        let ghost results = done@;
        let mut batch = batch;
        let mut k: usize = 0;
        assert(start.release + Seq::new(0, |j: int| all[results[j].0 as int].call)
            =~= start.release);
        while k < done.len()
            invariant
                k <= done@.len(),
                results == done@,
                all == views(calls@),
                is_order(completion(done@), calls@.len()),
                batch@ == (BatchModel {
                    outcomes: outcomes_in(start.outcomes, all, results, k as nat),
                    release: start.release + Seq::new(
                        k as nat,
                        |j: int| all[results[j].0 as int].call,
                    ),
                    ..start
                }),
            decreases done@.len() - k,
        {
            let i: usize = done[k].0;
            assert(completion(done@)[k as int] == i);
            assert(all[i as int] == calls@[i as int]@);
            let ghost before_release = batch.release@;
            let ghost mid = batch@;
            batch.outcomes.insert(calls[i].call.as_str(), done[k].1.clone());
            batch.release.push(calls[i].call.clone());
            proof {
                assert(crate::text::texts(batch.release@) =~= crate::text::texts(
                    before_release,
                ).push(all[i as int].call));
                assert(start.release + Seq::new(
                    (k + 1) as nat,
                    |j: int| all[results[j].0 as int].call,
                ) =~= (start.release + Seq::new(
                    k as nat,
                    |j: int| all[results[j].0 as int].call,
                )).push(all[i as int].call));
                assert(batch@ =~= (BatchModel {
                    outcomes: outcomes_in(start.outcomes, all, results, (k + 1) as nat),
                    release: start.release + Seq::new(
                        (k + 1) as nat,
                        |j: int| all[results[j].0 as int].call,
                    ),
                    ..start
                }));
            }
            k += 1;
        }
        assert(batch@ =~= settled_batch(start, all, results));
        self.keep(id, batch);
    }

    /// Runs the calls of a burst through the replay, as one batch: the replay
    /// decides the order in which they complete, and applies a fault that
    /// reorders them. A burst that is not in flight, or has been scheduled, is
    /// left as it is, and so is the replay.
    pub fn schedule<C: Cas>(&mut self, id: u64, replay: &mut Replayer<'_, C>)
        requires
            old(replay).ready(),
        ensures
            final(replay).ready(),
            final(replay).start == old(replay).start,
            *final(final(replay).cas) == *final(old(replay).cas),
            match to_schedule(old(self)@, id) {
                None => {
                    &&& final(self)@ == old(self)@
                    &&& final(replay)@ == old(replay)@
                    &&& final(replay).steps@ == old(replay).steps@
                    &&& final(replay).history() == old(replay).history()
                },
                Some(calls) => {
                    let asked = Step::Batch { requests: requests_of(calls) };
                    &&& final(replay)@ == stepped(old(replay)@, asked)
                    &&& final(replay).steps@ == old(replay).steps@.push(asked)
                    &&& exists|done: Seq<(usize, Outcome)>|
                        {
                            &&& #[trigger] replayed_batch(
                                old(replay)@,
                                requests_of(calls),
                                done,
                            )
                            &&& final(replay).history() == old(replay).history() + exchanges(
                                requests_of(calls),
                                done,
                            )
                            &&& final(self)@ == (BarrierModel {
                                batches: old(self)@.batches.insert(
                                    id,
                                    settled_batch(old(self)@.batches[id], calls, done),
                                ),
                                ..old(self)@
                            })
                        }
                },
            },
    {
        let ghost start = self@;
        let ghost before = replay@;
        if let Some((batch, calls)) = self.gather(id) {
            let requests = copy_requests(&calls);
            let ghost all = views(calls@);
            let ghost asked = views(requests@);
            let done = replay.perform_batch(requests);
            let ghost results = done@;
            let ghost emptied = batch@;
            proof {
                reveal(stepped);
                assert(asked.len() == calls@.len());
                assert(asked == requests_of(all));
                assert(replayed_batch(before, asked, results));
            }
            self.settle(id, batch, &calls, done);
            proof {
                assert(settled_batch(emptied, all, results) =~= settled_batch(
                    start.batches[id],
                    all,
                    results,
                ));
                assert(start.batches.remove(id).insert(
                    id,
                    settled_batch(emptied, all, results),
                ) =~= start.batches.insert(id, settled_batch(emptied, all, results)));
            }
        }
    }

    /// Schedules a burst when the replay is over: every call is told so.
    pub fn schedule_closed(&mut self, id: u64)
        ensures
            match to_schedule(old(self)@, id) {
                None => final(self)@ == old(self)@,
                Some(calls) => exists|done: Seq<(usize, Outcome)>|
                    {
                        &&& #[trigger] completion(done) == crate::fault::unchanged(calls.len())
                        &&& forall|k: int|
                            0 <= k < done.len() ==> (#[trigger] done[k]).1@ == closed_outcome()
                        &&& final(self)@ == (BarrierModel {
                            batches: old(self)@.batches.insert(
                                id,
                                settled_batch(old(self)@.batches[id], calls, done),
                            ),
                            ..old(self)@
                        })
                    },
            },
    {
        let ghost start = self@;
        if let Some((batch, calls)) = self.gather(id) {
            let ghost all = views(calls@);
            let mut done: Vec<(usize, Outcome)> = Vec::new();
            let mut k: usize = 0;
            while k < calls.len()
                invariant
                    k <= calls@.len(),
                    done@.len() == k,
                    forall|j: int|
                        0 <= j < k ==> (#[trigger] done@[j]).0 == j && done@[j].1@
                            == closed_outcome(),
                decreases calls@.len() - k,
            {
                done.push((k, answer_closed()));
                k += 1;
            }
            let ghost results = done@;
            let ghost emptied = batch@;
            proof {
                assert(completion(results) =~= crate::fault::unchanged(calls@.len()));
                assert(is_order(completion(results), calls@.len())) by {
                    let order = completion(results);
                    assert forall|a: int, b: int| 0 <= a < b < order.len() implies order[a]
                        != order[b] by {
                        assert(results[a].0 == a && results[b].0 == b);
                    }
                    assert forall|a: int| 0 <= a < order.len() implies (#[trigger] order[a])
                        < calls@.len() by {
                        assert(results[a].0 == a);
                    }
                }
            }
            self.settle(id, batch, &calls, done);
            proof {
                assert(settled_batch(emptied, all, results) =~= settled_batch(
                    start.batches[id],
                    all,
                    results,
                ));
                assert(start.batches.remove(id).insert(
                    id,
                    settled_batch(emptied, all, results),
                ) =~= start.batches.insert(id, settled_batch(emptied, all, results)));
            }
        }
    }

    /// Whether it is a call's turn to be answered.
    pub fn my_turn(&self, id: u64, call: &str) -> (r: bool)
        ensures
            r == is_turn(self@, id, call@),
    {
        match self.batches.get(&id) {
            Some(batch) => if batch.cursor < batch.release.len() {
                same(batch.release[batch.cursor].as_str(), call)
            } else {
                true
            },
            None => true,
        }
    }

    /// What a call of a burst is answered. The outcome is handed out once.
    pub fn answer(&mut self, id: u64, call: &str) -> (r: Outcome)
        ensures
            r@ == answer_to(old(self)@, id, call@),
            final(self)@ == without_answer(old(self)@, id, call@),
    {
        let ghost start = self@;
        match self.take(id) {
            None => {
                assert(self@ =~= start);
                Outcome::err("samsara_unscheduled", "call was not scheduled with its batch")
            },
            Some(batch) => {
                let mut batch = batch;
                let ghost found = batch@;
                let outcome = batch.outcomes.remove(call);
                assert(batch@ =~= (BatchModel {
                    outcomes: found.outcomes.remove(call@),
                    ..found
                }));
                self.keep(id, batch);
                assert(self@ =~= without_answer(start, id, call@));
                match outcome {
                    Some(outcome) => outcome,
                    None => Outcome::err(
                        "samsara_unscheduled",
                        "call was not scheduled with its batch",
                    ),
                }
            },
        }
    }

    /// An answer has been delivered: lets the next call of the burst be
    /// answered. Only after delivery, so that the agent sees the results in
    /// the order that was chosen.
    pub fn advance(&mut self, id: u64)
        ensures
            final(self)@ == moved_on(old(self)@, id),
    {
        let ghost start = self@;
        match self.take(id) {
            None => {
                assert(self@ =~= start);
            },
            Some(batch) => {
                let n: usize = batch.release.len();
                if batch.cursor < n && batch.cursor + 1 < n {
                    let mut batch = batch;
                    let ghost found = batch@;
                    batch.cursor = batch.cursor + 1;
                    assert(batch@ =~= (BatchModel {
                        cursor: (found.cursor + 1) as usize,
                        ..found
                    }));
                    self.keep(id, batch);
                }
                assert(self@ =~= moved_on(start, id));
            },
        }
    }
}

/// The requests of calls.
fn copy_requests(calls: &Vec<Arrival>) -> (r: Vec<EffectRequest>)
    ensures
        views(r@) == requests_of(views(calls@)),
{
    let mut out: Vec<EffectRequest> = Vec::new();
    let mut i: usize = 0;
    while i < calls.len()
        invariant
            i <= calls@.len(),
            out@.len() == i,
            forall|k: int| 0 <= k < i ==> (#[trigger] out@[k])@ == calls@[k]@.request,
        decreases calls@.len() - i,
    {
        out.push(calls[i].request.clone());
        i += 1;
    }
    assert(views(out@) =~= requests_of(views(calls@)));
    out
}

} // verus!
