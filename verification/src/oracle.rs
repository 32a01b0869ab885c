//! Answers by content.
//!
//! Once an agent has been lied to, it asks things the recording did not
//! anticipate in position, but very often did in content: a retry has the
//! same identity as the call it retries. The oracle finds the outcomes that
//! an identity produced anywhere in the recording.

use crate::cas::{found, Cas, Contents, StoreError};
use crate::event::{EventModel, Outcome, OutcomeModel};
use crate::hash::Digest;
use crate::json::{json_read, Json};
use crate::model::{viewed, views};
use crate::record::outcome_from;
use crate::trace::Trace;
use vstd::prelude::*;

verus! {

/// An outcome with the digest of the bytes it was read from.
pub type Answer = (Seq<char>, OutcomeModel);

/// The outcome that some bytes stand for.
pub open spec fn outcome_in(bytes: Seq<u8>) -> Option<OutcomeModel> {
    match json_read(bytes) {
        Some(m) => outcome_from(m),
        None => None,
    }
}

/// The outcome a store holds under a digest.
pub open spec fn outcome_at(contents: Contents, digest: Seq<char>) -> Option<OutcomeModel> {
    match found(contents, digest) {
        Some(bytes) => outcome_in(bytes),
        None => None,
    }
}

/// The outcome that some bytes stand for.
pub fn read_outcome(bytes: &Vec<u8>) -> (r: Option<Outcome>)
    ensures
        viewed(r) == outcome_in(bytes@),
{
    match Json::read(bytes.as_slice()) {
        Some(json) => Outcome::from_json(&json),
        None => None,
    }
}

/// The outcome a store holds under a digest, a failed read counting as
/// nothing.
pub fn fetch_outcome<C: Cas>(cas: &C, digest: &Digest) -> (r: Option<Outcome>)
    ensures
        viewed(r) == outcome_at(cas.contents(), digest@),
{
    match crate::cas::fetch(cas, digest) {
        Some(bytes) => read_outcome(&bytes),
        None => None,
    }
}

/// The outcomes that the effects of one identity had, in the order recorded.
/// Those that the store does not hold are left out.
pub open spec fn recorded_answers(
    events: Seq<EventModel>,
    contents: Contents,
    identity: Seq<char>,
) -> Seq<Answer>
    decreases events.len(),
{
    if events.len() == 0 {
        seq![]
    } else {
        let front = recorded_answers(events.drop_last(), contents, identity);
        let e = events.last();
        match outcome_at(contents, e.outcome) {
            Some(o) => if e.identity == identity {
                front.push((e.outcome, o))
            } else {
                front
            },
            None => front,
        }
    }
}

/// The identities that have an answer, in the order they first appear.
pub open spec fn answered(events: Seq<EventModel>, contents: Contents) -> Seq<Seq<char>>
    decreases events.len(),
{
    if events.len() == 0 {
        seq![]
    } else {
        let front = answered(events.drop_last(), contents);
        let e = events.last();
        if outcome_at(contents, e.outcome) is Some && !front.contains(e.identity) {
            front.push(e.identity)
        } else {
            front
        }
    }
}

/// What an oracle is, for contracts.
#[verifier::ext_equal]
pub struct OracleModel {
    /// The identities it knows.
    pub identities: Seq<Seq<char>>,
    /// The outcomes each identity produced.
    pub answers: spec_fn(Seq<char>) -> Seq<Answer>,
    /// Which of them comes next.
    pub next: spec_fn(Seq<char>) -> nat,
}

/// The oracle of a recording that has given no answer yet.
pub open spec fn fresh_oracle(events: Seq<EventModel>, contents: Contents) -> OracleModel {
    OracleModel {
        identities: answered(events, contents),
        answers: |id: Seq<char>| recorded_answers(events, contents, id),
        next: |id: Seq<char>| 0nat,
    }
}

/// The answer an oracle gives, and the oracle after it: repeated questions
/// walk through the recorded outcomes and then hold on the last.
pub open spec fn asked(o: OracleModel, identity: Seq<char>) -> (Option<Answer>, OracleModel) {
    let all = (o.answers)(identity);
    let i = (o.next)(identity);
    if all.len() == 0 {
        (None, o)
    } else {
        (
            Some(all[i as int]),
            OracleModel {
                identities: o.identities,
                answers: o.answers,
                next: |id: Seq<char>|
                    if id == identity && i + 1 < all.len() {
                        i + 1
                    } else {
                        (o.next)(id)
                    },
            },
        )
    }
}

/// The outcomes of one identity.
struct Entry {
    identity: Digest,
    outcomes: Vec<(Digest, Outcome)>,
    next: usize,
}

/// The answers of some outcomes.
spec fn answers_of(outcomes: Seq<(Digest, Outcome)>) -> Seq<Answer> {
    Seq::new(outcomes.len(), |i: int| (outcomes[i].0@, outcomes[i].1@))
}

/// An index from effect identity to the outcomes that identity produced.
pub struct ResponseOracle {
    entries: Vec<Entry>,
}

spec fn ids_of(entries: Seq<Entry>) -> Seq<Seq<char>> {
    Seq::new(entries.len(), |i: int| entries[i].identity@)
}

/// Where an identity stands.
spec fn entry_at(entries: Seq<Entry>, identity: Seq<char>) -> int {
    choose|i: int| 0 <= i < entries.len() && (#[trigger] entries[i]).identity@ == identity
}

spec fn entry_answers(entries: Seq<Entry>, identity: Seq<char>) -> Seq<Answer> {
    if ids_of(entries).contains(identity) {
        answers_of(entries[entry_at(entries, identity)].outcomes@)
    } else {
        seq![]
    }
}

spec fn entry_next(entries: Seq<Entry>, identity: Seq<char>) -> nat {
    if ids_of(entries).contains(identity) {
        entries[entry_at(entries, identity)].next as nat
    } else {
        0
    }
}

impl View for ResponseOracle {
    type V = OracleModel;

    closed spec fn view(&self) -> OracleModel {
        OracleModel {
            identities: ids_of(self.entries@),
            answers: |id: Seq<char>| entry_answers(self.entries@, id),
            next: |id: Seq<char>| entry_next(self.entries@, id),
        }
    }
}

proof fn lemma_entry(entries: Seq<Entry>, i: int)
    requires
        0 <= i < entries.len(),
        ids_of(entries).no_duplicates(),
    ensures
        entry_at(entries, entries[i].identity@) == i,
        ids_of(entries).contains(entries[i].identity@),
{
    let id = entries[i].identity@;
    assert(ids_of(entries)[i] == id);
    let j = entry_at(entries, id);
    assert(0 <= j < entries.len() && entries[j].identity@ == id);
    assert(ids_of(entries)[j] == id);
}

impl ResponseOracle {
    /// Whether each identity has one entry, with an answer to give next.
    pub closed spec fn well_formed(&self) -> bool {
        &&& ids_of(self.entries@).no_duplicates()
        &&& forall|i: int|
            0 <= i < self.entries@.len() ==> (#[trigger] self.entries@[i]).next
                < self.entries@[i].outcomes@.len()
    }

    /// Where the entry of an identity stands.
    fn find(&self, identity: &Digest) -> (r: Option<usize>)
        ensures
            match r {
                Some(i) => i < self.entries@.len() && self.entries@[i as int].identity@
                    == identity@,
                None => !ids_of(self.entries@).contains(identity@),
            },
    {
        let mut i: usize = 0;
        while i < self.entries.len()
            invariant
                i <= self.entries@.len(),
                forall|j: int| 0 <= j < i ==> (#[trigger] ids_of(self.entries@)[j]) != identity@,
            decreases self.entries@.len() - i,
        {
            if self.entries[i].identity.same(identity) {
                return Some(i);
            }
            i += 1;
        }
        None
    }

    /// Notes one more outcome of an identity.
    fn learn(&mut self, identity: &Digest, digest: &Digest, outcome: Outcome)
        requires
            old(self).well_formed(),
            old(self)@.next == (|id: Seq<char>| 0nat),
        ensures
            final(self).well_formed(),
            final(self)@.next == (|id: Seq<char>| 0nat),
            final(self)@.identities == if old(self)@.identities.contains(identity@) {
                old(self)@.identities
            } else {
                old(self)@.identities.push(identity@)
            },
            forall|id: Seq<char>| #[trigger]
                (final(self)@.answers)(id) == if id == identity@ {
                    (old(self)@.answers)(id).push((digest@, outcome@))
                } else {
                    (old(self)@.answers)(id)
                },
    {
        let ghost before = self.entries@;
        assert forall|id: Seq<char>| #[trigger] entry_next(before, id) == 0 by {
            assert((self@.next)(id) == 0);
        }
        match self.find(identity) {
            Some(i) => {
                let mut old_entry = self.entries.remove(i);
                let ghost kept = old_entry.outcomes@;
                old_entry.outcomes.push((digest.clone(), outcome));
                self.entries.insert(i, old_entry);
                proof {
                    let after = self.entries@;
                    assert(after.len() == before.len());
                    assert forall|k: int| 0 <= k < after.len() implies (#[trigger] after[k]).identity@
                        == before[k].identity@ && (k != i ==> after[k] == before[k]) by {}
                    assert(ids_of(after) =~= ids_of(before));
                    assert(answers_of(after[i as int].outcomes@) =~= answers_of(kept).push(
                        (digest@, outcome@),
                    ));
                    lemma_entry(before, i as int);
                    lemma_entry(after, i as int);
                    assert forall|id: Seq<char>| #[trigger] (self@.answers)(id) == if id
                        == identity@ {
                        entry_answers(before, id).push((digest@, outcome@))
                    } else {
                        entry_answers(before, id)
                    } by {
                        if id != identity@ && ids_of(before).contains(id) {
                            let k = choose|k: int|
                                0 <= k < ids_of(before).len() && ids_of(before)[k] == id;
                            assert(before[k].identity@ == id);
                            lemma_entry(before, k);
                            lemma_entry(after, k);
                        }
                    }
                    assert forall|id: Seq<char>| #[trigger] (self@.next)(id) == 0 by {
                        assert(entry_next(before, id) == 0);
                        if ids_of(before).contains(id) {
                            let k = choose|k: int|
                                0 <= k < ids_of(before).len() && ids_of(before)[k] == id;
                            assert(before[k].identity@ == id);
                            lemma_entry(before, k);
                            lemma_entry(after, k);
                        }
                    }
                    assert(self@.next =~= (|id: Seq<char>| 0nat));
                    assert(before[i as int].next < before[i as int].outcomes@.len());
                }
            },
            None => {
                let mut outcomes: Vec<(Digest, Outcome)> = Vec::new();
                outcomes.push((digest.clone(), outcome));
                self.entries.push(Entry { identity: identity.clone(), outcomes, next: 0 });
                proof {
                    let after = self.entries@;
                    let n = before.len() as int;
                    assert(ids_of(after) =~= ids_of(before).push(identity@));
                    assert(after[n].outcomes@.len() == 1);
                    assert forall|a: int, b: int| 0 <= a < b < after.len() implies ids_of(after)[a]
                        != ids_of(after)[b] by {
                        if b == n {
                            assert(ids_of(before)[a] == ids_of(after)[a]);
                            assert(ids_of(before).contains(ids_of(before)[a]));
                        } else {
                            assert(ids_of(before)[a] != ids_of(before)[b]);
                        }
                    }
                    lemma_entry(after, n);
                    assert(answers_of(after[n].outcomes@) =~= seq![(digest@, outcome@)]);
                    assert forall|id: Seq<char>|
                        id != identity@ implies #[trigger] entry_answers(after, id)
                        == entry_answers(before, id) && entry_next(after, id) == entry_next(
                        before,
                        id,
                    ) by {
                        if ids_of(before).contains(id) {
                            let k = choose|k: int|
                                0 <= k < ids_of(before).len() && ids_of(before)[k] == id;
                            assert(before[k].identity@ == id);
                            assert(after[k] == before[k]);
                            assert(ids_of(after)[k] == id);
                            lemma_entry(before, k);
                            lemma_entry(after, k);
                        } else if ids_of(after).contains(id) {
                            let k = choose|k: int|
                                0 <= k < ids_of(after).len() && ids_of(after)[k] == id;
                            if k < n {
                                assert(ids_of(before)[k] == id);
                            }
                        }
                    }
                    assert forall|id: Seq<char>| #[trigger] (self@.answers)(id) == if id
                        == identity@ {
                        entry_answers(before, id).push((digest@, outcome@))
                    } else {
                        entry_answers(before, id)
                    } by {
                        if id == identity@ {
                            assert(seq![(digest@, outcome@)] =~= Seq::<Answer>::empty().push(
                                (digest@, outcome@),
                            ));
                        } else {
                            assert(entry_answers(after, id) == entry_answers(before, id));
                        }
                    }
                    assert forall|id: Seq<char>| #[trigger] (self@.next)(id) == 0 by {
                        assert(entry_next(before, id) == 0);
                        if id != identity@ {
                            assert(entry_answers(after, id) == entry_answers(before, id));
                        }
                    }
                    assert(self@.next =~= (|id: Seq<char>| 0nat));
                }
            },
        }
    }

    /// Build from a trace, reading outcomes out of the store.
    pub fn build<C: Cas>(trace: &Trace, cas: &C) -> (r: Result<Self, StoreError>)
        ensures
            cas.works() ==> r is Ok,
            r is Ok ==> {
                &&& r->Ok_0@ == fresh_oracle(trace@.events, cas.contents())
                &&& r->Ok_0.well_formed()
            },
    {
        let ghost all = trace@.events;
        let mut oracle = ResponseOracle { entries: Vec::new() };
        let mut i: usize = 0;
        proof {
            assert(all.take(0) =~= seq![]);
            assert(ids_of(oracle.entries@) =~= seq![]);
            assert(oracle@.next =~= (|id: Seq<char>| 0nat));
            assert(answered(all.take(0), cas.contents()) =~= seq![]);
        }
        while i < trace.events.len()
            invariant
                i <= trace.events@.len(),
                all == views(trace.events@),
                oracle.well_formed(),
                oracle@.next == (|id: Seq<char>| 0nat),
                oracle@.identities == answered(all.take(i as int), cas.contents()),
                forall|id: Seq<char>| #[trigger]
                    (oracle@.answers)(id) == recorded_answers(
                        all.take(i as int),
                        cas.contents(),
                        id,
                    ),
            decreases trace.events@.len() - i,
        {
            let event = &trace.events[i];
            let ghost before = oracle@;
            proof {
                assert(all.take(i + 1).drop_last() =~= all.take(i as int));
                assert(all.take(i + 1).last() == event@);
            }
            match cas.get(&event.outcome) {
                Err(e) => {
                    return Err(e);
                },
                Ok(None) => {},
                Ok(Some(bytes)) => {
                    if let Some(outcome) = read_outcome(&bytes) {
                        oracle.learn(&event.identity, &event.outcome, outcome);
                    }
                },
            }
            assert forall|id: Seq<char>| #[trigger] (oracle@.answers)(id) == recorded_answers(
                all.take(i + 1),
                cas.contents(),
                id,
            ) by {
                assert((before.answers)(id) == recorded_answers(
                    all.take(i as int),
                    cas.contents(),
                    id,
                ));
            }
            i += 1;
        }
        proof {
            assert(all.take(i as int) =~= all);
            let want = fresh_oracle(all, cas.contents());
            assert(oracle@.answers =~= want.answers) by {
                assert forall|id: Seq<char>| #[trigger] (oracle@.answers)(id) == (want.answers)(
                    id,
                ) by {}
            }
            assert(oracle@.next =~= want.next);
            assert(oracle@ =~= want);
        }
        Ok(oracle)
    }

    /// Answer an effect, if the recording ever saw this exact request.
    ///
    /// Repeated calls walk through the recorded outcomes and then hold on the
    /// last one: a tool that succeeded once keeps reporting success.
    pub fn answer(&mut self, identity: &Digest) -> (r: Option<(Digest, Outcome)>)
        requires
            old(self).well_formed(),
        ensures
            final(self).well_formed(),
            final(self)@ == asked(old(self)@, identity@).1,
            match r {
                Some(answer) => asked(old(self)@, identity@).0 == Some((answer.0@, answer.1@)),
                None => asked(old(self)@, identity@).0 is None,
            },
    {
        let ghost before = self.entries@;
        match self.find(identity) {
            Some(i) => {
                proof {
                    lemma_entry(before, i as int);
                }
                let mut entry = self.entries.remove(i);
                let at: usize = entry.next;
                let digest = entry.outcomes[at].0.clone();
                let outcome = entry.outcomes[at].1.clone();
                let count: usize = entry.outcomes.len();
                if count - at > 1 {
                    entry.next = at + 1;
                }
                self.entries.insert(i, entry);
                proof {
                    let after = self.entries@;
                    assert forall|k: int| 0 <= k < after.len() implies (#[trigger] after[k]).identity@
                        == before[k].identity@ && after[k].outcomes == before[k].outcomes && (k != i
                        ==> after[k] == before[k]) by {}
                    assert(ids_of(after) =~= ids_of(before));
                    let want = asked(
                        OracleModel {
                            identities: ids_of(before),
                            answers: |id: Seq<char>| entry_answers(before, id),
                            next: |id: Seq<char>| entry_next(before, id),
                        },
                        identity@,
                    ).1;
                    assert(answers_of(before[i as int].outcomes@).len() == count);
                    assert forall|id: Seq<char>| #[trigger] entry_answers(after, id)
                        == entry_answers(before, id) && entry_next(after, id) == (want.next)(
                        id,
                    ) by {
                        if ids_of(before).contains(id) {
                            let k = choose|k: int|
                                0 <= k < ids_of(before).len() && ids_of(before)[k] == id;
                            assert(before[k].identity@ == id);
                            lemma_entry(before, k);
                            lemma_entry(after, k);
                        }
                    }
                    assert(self@.answers =~= want.answers) by {
                        assert forall|id: Seq<char>| #[trigger] (self@.answers)(id) == (
                        want.answers)(id) by {
                            assert(entry_answers(after, id) == entry_answers(before, id));
                        }
                    }
                    assert(self@.next =~= want.next) by {
                        assert forall|id: Seq<char>| #[trigger] (self@.next)(id) == (want.next)(
                            id,
                        ) by {
                            assert(entry_answers(after, id) == entry_answers(before, id));
                        }
                    }
                    assert(self@ =~= want);
                }
                Some((digest, outcome))
            },
            None => None,
        }
    }

    /// Distinct identities known.
    pub fn len(&self) -> (r: usize)
        ensures
            r == self@.identities.len(),
    {
        self.entries.len()
    }

    /// Whether no identity is known.
    pub fn is_empty(&self) -> (r: bool)
        ensures
            r == (self@.identities.len() == 0),
    {
        self.entries.is_empty()
    }
}

} // verus!
