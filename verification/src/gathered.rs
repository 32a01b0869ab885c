//! How concurrent calls are held during a replay: which burst a call belongs to,
//! when a burst is complete, in which order it is scheduled, and whose turn it is
//! to be answered.

use crate::barrier::{
    answer_to, closed_outcome, entered, expected_in, identities, in_order, is_turn, layout,
    lined_up, moved_on, names_agree, outcomes_in, place_in, ranked_place, seen_with,
    settled_batch, slotted, sooner, to_schedule, without_answer, Arrived, BarrierModel,
    BatchModel, EntryModel, Slotted, SortKey,
};
use crate::event::{EventModel, Outcome, OutcomeModel, RequestModel};
use crate::text::{precedes, times_in};
use vstd::prelude::*;

verus! {

// ---------------------------------------------------------------------------
// Bursts of a recording
// ---------------------------------------------------------------------------

/// One more event of a recording joins its burst behind the members that this
/// has, opens a burst behind the others, or belongs to none.
pub proof fn lemma_burst_grows(events: Seq<EventModel>, e: EventModel)
    ensures
        layout(Seq::<EventModel>::empty()).members.len() == 0,
        layout(events).ids.len() == layout(events).members.len(),
        ({
            let before = layout(events);
            let after = layout(events.push(e));
            &&& e.batch is None ==> after == before
            &&& e.batch matches Some(b) ==> {
                if before.ids.contains(b) {
                    &&& after.ids == before.ids
                    &&& exists|i: int|
                        0 <= i < before.ids.len() && #[trigger] before.ids[i] == b && after.members
                            == before.members.update(i, before.members[i].push(e.identity))
                } else {
                    &&& after.ids == before.ids.push(b)
                    &&& after.members == before.members.push(seq![e.identity])
                }
            }
        }),
    decreases events.len(),
{
    if events.len() > 0 {
        lemma_burst_grows(events.drop_last(), events.last());
        assert(events.drop_last().push(events.last()) =~= events);
    }
    assert(events.push(e).drop_last() =~= events);
    if let Some(b) = e.batch {
        crate::barrier::lemma_place_in(layout(events).ids, b);
        if let Some(i) = place_in(layout(events).ids, b) {
            assert(layout(events).ids[i] == b);
        }
    }
}

// ---------------------------------------------------------------------------
// Arriving
// ---------------------------------------------------------------------------

/// Bursts are lined up by position, whatever their numbers: the burst that
/// appears first is the recording's first, and so on. A burst that the recording
/// does not have is of one call.
pub proof fn lemma_bursts_by_position(b: BarrierModel, id: u64)
    requires
        !b.seen.contains(id),
    ensures
        expected_in(b, id) == if b.seen.len() < b.recorded.len() {
            b.recorded[b.seen.len() as int].len()
        } else {
            1
        },
        seen_with(b.seen, id) == b.seen.push(id),
        seen_with(seen_with(b.seen, id), id) == seen_with(b.seen, id),
{
    crate::barrier::lemma_place_in(b.seen, id);
    let more = b.seen.push(id);
    crate::barrier::lemma_place_in(more, id);
    assert(more[more.len() - 1] == id);
    assert(more.drop_last() =~= b.seen);
}

/// A call outside of any burst, or in one of a single call, is performed by
/// itself, and holds nothing up.
pub proof fn lemma_single_calls(b: BarrierModel, request: RequestModel, batch: Option<u64>)
    requires
        batch matches Some(id) ==> expected_in(b, id) <= 1,
    ensures
        entered(b, request, batch).0 == (EntryModel::Alone { request }),
        entered(b, request, batch).1.batches == b.batches,
        entered(b, request, batch).1.next_call != b.next_call,
{
}

/// A call of a burst waits until as many calls have arrived as the recording has
/// in it. It joins behind those that came before it, and no other burst is
/// touched.
pub proof fn lemma_burst_gathers(b: BarrierModel, request: RequestModel, id: u64)
    requires
        2 <= expected_in(b, id) <= usize::MAX,
    ensures
        ({
            let (entry, after) = entered(b, request, Some(id));
            let waiting: Seq<Arrived> = if b.batches.dom().contains(id) {
                b.batches[id].arrived
            } else {
                seq![]
            };
            let expected: nat = if b.batches.dom().contains(id) {
                b.batches[id].expected as nat
            } else {
                expected_in(b, id)
            };
            &&& after.batches.dom().contains(id)
            &&& after.batches[id].arrived.len() == waiting.len() + 1
            &&& after.batches[id].arrived.drop_last() == waiting
            &&& after.batches[id].arrived.last().request == request
            &&& after.batches[id].expected == expected
            &&& entry is Complete <==> waiting.len() + 1 >= expected
            &&& entry is Gathering <==> waiting.len() + 1 < expected
            &&& forall|other: u64|
                other != id ==> (after.batches.dom().contains(other) <==>
                    #[trigger] b.batches.dom().contains(other)) && (b.batches.dom().contains(other)
                    ==> after.batches[other] == b.batches[other])
        }),
{
    let (entry, after) = entered(b, request, Some(id));
    let waiting: Seq<Arrived> = if b.batches.dom().contains(id) {
        b.batches[id].arrived
    } else {
        seq![]
    };
    assert(after.batches[id].arrived.drop_last() =~= waiting);
}

// ---------------------------------------------------------------------------
// The order of a burst
// ---------------------------------------------------------------------------

/// The place of a call in the recording is that of the same request, the first
/// to the first where the same was asked more than once. There is none exactly
/// where the recording asked it less often.
pub proof fn lemma_place_of_call(recorded: Seq<Seq<char>>, identity: Seq<char>, rank: nat)
    ensures
        ({
            let at = ranked_place(recorded, identity, rank);
            &&& at >= 0 ==> at < recorded.len() && recorded[at] == identity && times_in(
                recorded.take(at),
                identity,
            ) == rank
            &&& at >= 0 <==> times_in(recorded, identity) > rank
        }),
    decreases recorded.len(),
{
    if recorded.len() > 0 {
        let front = recorded.drop_last();
        lemma_place_of_call(front, identity, rank);
        let earlier = ranked_place(front, identity, rank);
        if earlier >= 0 {
            assert(recorded.take(earlier) =~= front.take(earlier));
        }
        assert(recorded.take(recorded.len() - 1) =~= front);
    }
}

/// Calls are ordered by their place in the recording before anything else, those
/// that it does not have come last, and those are ordered by what they ask: never
/// by when they arrived.
pub proof fn lemma_ordered_by_place(a: SortKey, b: SortKey)
    ensures
        a.slot < b.slot ==> sooner(a, b) && !sooner(b, a),
        a.slot == b.slot && precedes(a.name, b.name) ==> sooner(a, b) && !sooner(b, a),
        a.slot == b.slot && a.name == b.name && precedes(a.identity, b.identity) ==> sooner(a, b)
            && !sooner(b, a),
        a == b ==> !sooner(a, b),
        a != b ==> sooner(a, b) || sooner(b, a),
{
    crate::text::lemma_precedes_asymmetric(a.name, b.name);
    crate::text::lemma_precedes_asymmetric(b.name, a.name);
    crate::text::lemma_precedes_asymmetric(a.identity, b.identity);
    crate::text::lemma_precedes_asymmetric(b.identity, a.identity);
    crate::text::lemma_precedes_asymmetric(a.name, a.name);
    crate::text::lemma_precedes_asymmetric(a.identity, a.identity);
    crate::text::lemma_precedes_total(a.name, b.name);
    crate::text::lemma_precedes_total(a.identity, b.identity);
}

proof fn lemma_times_up(list: Seq<Seq<char>>, i: int, j: int, x: Seq<char>)
    requires
        0 <= i <= j <= list.len(),
    ensures
        times_in(list.take(i), x) <= times_in(list.take(j), x),
        i < j && list[i] == x ==> times_in(list.take(i), x) < times_in(list.take(j), x),
    decreases j - i,
{
    if i < j {
        assert(list.take(i + 1).drop_last() =~= list.take(i));
        assert(list.take(i + 1).last() == list[i]);
        lemma_times_up(list, i + 1, j, x);
    }
}

proof fn lemma_own_place(recorded: Seq<Seq<char>>, k: int)
    requires
        0 <= k < recorded.len(),
    ensures
        ranked_place(recorded, recorded[k], times_in(recorded.take(k), recorded[k])) == k,
{
    let id = recorded[k];
    let rank = times_in(recorded.take(k), id);
    lemma_place_of_call(recorded, id, rank);
    lemma_times_up(recorded, k, recorded.len() as int, id);
    assert(recorded.take(recorded.len() as int) =~= recorded);
    let at = ranked_place(recorded, id, rank);
    if at < k {
        lemma_times_up(recorded, at, k, id);
    } else if at > k {
        lemma_times_up(recorded, k, at, id);
    }
}

proof fn lemma_in_order_idle(list: Seq<Slotted>)
    requires
        forall|i: int, j: int|
            0 <= i < j < list.len() ==> (#[trigger] list[i]).key.slot < (
            #[trigger] list[j]).key.slot,
    ensures
        in_order(list) == list,
    decreases list.len(),
{
    if list.len() > 0 {
        let front = list.drop_last();
        assert forall|i: int, j: int| 0 <= i < j < front.len() implies (
        #[trigger] front[i]).key.slot < (#[trigger] front[j]).key.slot by {
            assert(list[i].key.slot < list[j].key.slot);
        }
        lemma_in_order_idle(front);
        if front.len() > 0 {
            assert(list[front.len() - 1].key.slot < list[list.len() - 1].key.slot);
        }
        assert(front.push(list.last()) =~= list);
    }
}

/// A burst that arrives as it was recorded is scheduled as it arrived.
pub proof fn lemma_recorded_order_kept(
    paths: Seq<Seq<char>>,
    recorded: Seq<Seq<char>>,
    a: Seq<Arrived>,
)
    requires
        identities(paths, a) == recorded,
        recorded.len() <= usize::MAX,
    ensures
        lined_up(paths, recorded, a) == a,
{
    let list = slotted(paths, recorded, a);
    assert forall|k: int| 0 <= k < list.len() implies (#[trigger] list[k]).key.slot == k by {
        lemma_own_place(recorded, k);
    }
    lemma_in_order_idle(list);
    assert(lined_up(paths, recorded, a) =~= a);
}

/// So a burst whose calls are those of the recording is scheduled in the order of
/// the recording, in whatever order they arrive.
pub proof fn lemma_burst_in_recorded_order(
    paths: Seq<Seq<char>>,
    recorded: Seq<Seq<char>>,
    a: Seq<Arrived>,
    original: Seq<Arrived>,
)
    requires
        identities(paths, original) == recorded,
        recorded.len() <= usize::MAX,
        identities(paths, a).to_multiset() == recorded.to_multiset(),
        names_agree(paths, a, a),
        names_agree(paths, a, original),
        names_agree(paths, original, original),
    ensures
        identities(paths, lined_up(paths, recorded, a)) == recorded,
{
    lemma_recorded_order_kept(paths, recorded, original);
    crate::barrier::lemma_arrival_immaterial(paths, recorded, a, original);
}

/// A burst is scheduled once: where it is there and has not been.
pub proof fn lemma_scheduled_once(
    b: BarrierModel,
    id: u64,
    calls: Seq<Arrived>,
    done: Seq<(usize, Outcome)>,
)
    ensures
        to_schedule(b, id) is Some <==> b.batches.dom().contains(id) && !b.batches[id].scheduled,
        b.batches.dom().contains(id) ==> settled_batch(b.batches[id], calls, done).scheduled
            && settled_batch(b.batches[id], calls, done).arrived.len() == 0,
        b.batches.dom().contains(id) && !b.batches[id].scheduled && b.seen.contains(id)
            && b.seen.len() <= b.recorded.len() ==> exists|i: int|
            0 <= i < b.seen.len() && #[trigger] b.seen[i] == id && to_schedule(b, id) == Some(
                lined_up(b.paths, b.recorded[i], b.batches[id].arrived),
            ),
{
    crate::barrier::lemma_place_in(b.seen, id);
}

// ---------------------------------------------------------------------------
// Answering
// ---------------------------------------------------------------------------

/// The results that come in one by one are each kept under the call they are
/// for, and a later one for another call leaves them.
pub proof fn lemma_results_kept(
    known: Map<Seq<char>, OutcomeModel>,
    calls: Seq<Arrived>,
    done: Seq<(usize, Outcome)>,
    n: nat,
    k: int,
)
    requires
        0 <= k < n <= done.len(),
        forall|i: int|
            k < i < n ==> calls[(#[trigger] done[i]).0 as int].call != calls[done[k].0 as int].call,
    ensures
        outcomes_in(known, calls, done, n).dom().contains(calls[done[k].0 as int].call),
        outcomes_in(known, calls, done, n)[calls[done[k].0 as int].call] == done[k].1@,
    decreases n,
{
    if k < n - 1 {
        lemma_results_kept(known, calls, done, (n - 1) as nat, k);
        assert(calls[done[n - 1].0 as int].call != calls[done[k].0 as int].call);
    }
}

/// Each call of a burst is answered with its own outcome, and their turns come in
/// the order in which they completed.
pub proof fn lemma_burst_answered(
    b: BarrierModel,
    id: u64,
    batch: BatchModel,
    calls: Seq<Arrived>,
    done: Seq<(usize, Outcome)>,
    k: int,
)
    requires
        0 <= k < done.len() <= usize::MAX,
        batch.release.len() == 0,
        batch.cursor == 0,
        b.batches.dom().contains(id),
        b.batches[id] == settled_batch(batch, calls, done),
        forall|i: int, j: int|
            0 <= i < j < done.len() ==> calls[(#[trigger] done[i]).0 as int].call
                != calls[(#[trigger] done[j]).0 as int].call,
    ensures
        answer_to(b, id, calls[done[k].0 as int].call) == done[k].1@,
        is_turn(b, id, calls[done[k].0 as int].call) <==> k == 0,
        b.batches[id].release[k] == calls[done[k].0 as int].call,
{
    lemma_results_kept(batch.outcomes, calls, done, done.len(), k);
    let found = b.batches[id];
    assert(found.release[0] == calls[done[0].0 as int].call);
    if k > 0 {
        assert(calls[done[0].0 as int].call != calls[done[k].0 as int].call);
    }
}

/// Once an answer has been delivered, the next call of the burst has its turn and
/// the one before no longer has it; behind the last the burst is forgotten. No
/// other burst is touched.
pub proof fn lemma_turns_pass(b: BarrierModel, id: u64, call: Seq<char>)
    requires
        b.batches.dom().contains(id),
        b.batches[id].cursor < b.batches[id].release.len() <= usize::MAX,
    ensures
        ({
            let batch = b.batches[id];
            let after = moved_on(b, id);
            &&& is_turn(b, id, call) <==> call == batch.release[batch.cursor as int]
            &&& batch.cursor + 1 < batch.release.len() ==> {
                &&& after.batches.dom().contains(id)
                &&& is_turn(after, id, call) <==> call == batch.release[batch.cursor + 1]
                &&& after.batches[id].outcomes == batch.outcomes
            }
            &&& batch.cursor + 1 == batch.release.len() ==> !after.batches.dom().contains(id)
            &&& forall|other: u64|
                other != id && #[trigger] b.batches.dom().contains(other)
                    ==> after.batches.dom().contains(other) && after.batches[other]
                    == b.batches[other]
        }),
{
}

/// An answer is given once: afterwards the call is one that was not scheduled,
/// which is a failure, and every other call still has its answer.
pub proof fn lemma_answered_once(b: BarrierModel, id: u64, call: Seq<char>, other: Seq<char>)
    ensures
        answer_to(without_answer(b, id, call), id, call) matches OutcomeModel::Failure { code, .. }
            && code == "samsara_unscheduled"@,
        other != call ==> answer_to(without_answer(b, id, call), id, other) == answer_to(
            b,
            id,
            other,
        ),
        is_turn(without_answer(b, id, call), id, other) == is_turn(b, id, other),
        closed_outcome() matches OutcomeModel::Failure { code, .. } && code
            == "samsara_finished"@,
{
}

} // verus!
