//! The fix holds: the agent that sends a key derived from its task is not
//! broken by any schedule of faults.

use crate::canon::{digest_of, reads_back};
use crate::cas::{found, keeps, lemma_stored_keeps, stored, Contents};
use crate::config::{spec_breaches, SpecModel};
use crate::demo::{agent_asks, demo_properties};
use crate::event::{EffectKind, EventModel, RequestModel};
use crate::explore::may_end;
use crate::fault::PointModel;
use crate::invariants::{
    declares_key, duplicates, lemma_declared_keys_exempt, watched, ViolationModel,
};
use crate::json::{get, JsonModel};
use crate::record::{lemma_lookup_put_some, lemma_request_back, put, request_json};
use crate::replay::{request_at, request_bytes, Exchange};
use crate::replayer::{
    branch_of, lemma_performed_keeps, performed, replay_start, stepped, steps_run, ModeModel,
    ReplayState, Step,
};
use crate::testkit::{
    agent_ran, delete_request, one_by_one, planned_path, replayed, tried_in_vain, Report, Style,
    MAX_ATTEMPTS,
};
use crate::trace::TraceModel;
use vstd::prelude::*;

verus! {

/// Whether a store that holds a request gives it back as it was put there: no
/// other bytes are under its digest, and its own read back.
pub open spec fn request_kept(contents: Contents, r: RequestModel) -> bool {
    found(contents, digest_of(request_json(r))) matches Some(bytes) ==> bytes == request_bytes(r)
        && reads_back(request_json(r))
}

/// An event of a branch stands for its request, whose bytes the store has.
proof fn lemma_event_asked(s: ReplayState, r: RequestModel, batch: Option<u64>)
    ensures
        ({
            let end = performed(s, r, batch).1;
            let e = end.branch.last();
            &&& end.branch.len() == s.branch.len() + 1
            &&& end.branch.drop_last() == s.branch
            &&& e.kind == r.kind
            &&& e.name == r.name
            &&& e.request == digest_of(request_json(r))
            &&& end.contents.dom().contains(digest_of(request_json(r)))
        }),
{
    let end = performed(s, r, batch).1;
    assert(end.branch.drop_last() =~= s.branch);
    assert forall|c: Contents, bytes: Seq<u8>| #[trigger]
        stored(c, bytes).dom().contains(crate::hash::blake3_hex(bytes)) by {}
    assert forall|c: Contents, bytes: Seq<u8>| #[trigger]
        keeps(c, stored(c, bytes)) by {
        lemma_stored_keeps(c, bytes);
    }
}

/// The events of a branch of single effects are those that were asked for.
proof fn lemma_branch_asked(s: ReplayState, run: Seq<Exchange>, k: nat)
    requires
        s.branch.len() == 0,
        k <= run.len(),
    ensures
        ({
            let end = steps_run(s, one_by_one(run).take(k as int));
            &&& end.branch.len() == k
            &&& forall|i: int|
                0 <= i < k ==> {
                    &&& (#[trigger] end.branch[i]).kind == run[i].request.kind
                    &&& end.branch[i].name == run[i].request.name
                    &&& end.branch[i].request == digest_of(request_json(run[i].request))
                    &&& end.contents.dom().contains(end.branch[i].request)
                }
        }),
    decreases k,
{
    let steps = one_by_one(run);
    if k == 0 {
        assert(steps.take(0) =~= seq![]);
    } else {
        reveal(stepped);
        let j = k - 1;
        lemma_branch_asked(s, run, j as nat);
        assert(steps.take(k as int).drop_last() =~= steps.take(j));
        let before = steps_run(s, steps.take(j));
        let end = steps_run(s, steps.take(k as int));
        let r = run[j].request;
        assert(steps.take(k as int).last() == (Step::One { request: r }));
        lemma_event_asked(before, r, None);
        lemma_performed_keeps(before, r, None);
        assert forall|i: int| 0 <= i < k implies {
            &&& (#[trigger] end.branch[i]).kind == run[i].request.kind
            &&& end.branch[i].name == run[i].request.name
            &&& end.branch[i].request == digest_of(request_json(run[i].request))
            &&& end.contents.dom().contains(end.branch[i].request)
        } by {
            if i < j {
                assert(end.branch.drop_last()[i] == before.branch[i]);
            }
        }
    }
}

/// Every tool call of the agent is its request to delete the file.
proof fn lemma_only_deletes(style: Style, run: Seq<Exchange>, report: Report, i: int)
    requires
        agent_ran(style, run, report),
        0 <= i < run.len(),
        run[i].request.kind == EffectKind::Tool,
    ensures
        run[i].request == delete_request(style, planned_path(run[0].outcome)),
{
    let n = report.attempts as int;
    let request = delete_request(style, planned_path(run[0].outcome));
    assert(run.last() == run[run.len() - 1]);
    if 0 < i < run.len() - 1 {
        let k = (i - 1) / 3;
        assert(i == 1 + 3 * k || i == 2 + 3 * k || i == 3 + 3 * k);
        let tries = if report.succeeded {
            n - 1
        } else {
            n
        };
        assert(tried_in_vain(run, request, tries));
        if k < tries {
            assert(run[1 + 3 * k].request == request);
        } else {
            assert(report.succeeded && i == 3 * n - 2);
        }
    }
}

/// A request with a key in its body declares it.
proof fn lemma_key_declared(path: Seq<char>)
    ensures
        get(
            crate::record::ordered_request(delete_request(Style::Idempotent, path)).body,
            "idempotency_key"@,
        ) matches Some(v) && v != JsonModel::Null,
{
    let body = delete_request(Style::Idempotent, path).body;
    let front = put(seq![], "path"@, JsonModel::Text(path));
    let key = Some(JsonModel::Text("delete:"@ + path));
    lemma_lookup_put_some(front, "idempotency_key"@, key, "idempotency_key"@);
    assert(get(body, "idempotency_key"@) == key);
    crate::json::lemma_ordered_get(body, "idempotency_key"@);
}

/// A call whose request carries a key, and is found in the store, declares it.
proof fn lemma_call_exempt(contents: Contents, e: EventModel, path: Seq<char>)
    requires
        e.request == digest_of(request_json(delete_request(Style::Idempotent, path))),
        contents.dom().contains(e.request),
        request_kept(contents, delete_request(Style::Idempotent, path)),
    ensures
        declares_key(Some("idempotency_key"@), e, contents),
{
    let request = delete_request(Style::Idempotent, path);
    lemma_request_back(request);
    lemma_key_declared(path);
    assert(request_at(contents, e.request) == Some(crate::record::ordered_request(request)));
}

proof fn lemma_run_exempt(start: ReplayState, run: Seq<Exchange>, report: Report)
    requires
        start.branch.len() == 0,
        agent_ran(Style::Idempotent, run, report),
        forall|path: Seq<char>| #[trigger]
            request_kept(
                steps_run(start, one_by_one(run)).contents,
                delete_request(Style::Idempotent, path),
            ),
    ensures
        ({
            let end = steps_run(start, one_by_one(run));
            &&& end.branch.len() <= 3 * MAX_ATTEMPTS + 2
            &&& duplicates(
                seq!["delete_file"@],
                Some("idempotency_key"@),
                end.branch,
                end.contents,
            ) == Seq::<ViolationModel>::empty()
        }),
{
    let end = steps_run(start, one_by_one(run));
    let key = Some("idempotency_key"@);
    let tools = seq!["delete_file"@];
    let path = planned_path(run[0].outcome);
    lemma_branch_asked(start, run, run.len());
    assert(one_by_one(run).take(run.len() as int) =~= one_by_one(run));
    assert forall|k: int|
        0 <= k < end.branch.len() && (#[trigger] end.branch[k]).kind == EffectKind::Tool && watched(
            tools,
            end.branch[k].name,
        ) implies declares_key(key, end.branch[k], end.contents) by {
        lemma_only_deletes(Style::Idempotent, run, report, k);
        assert(request_kept(end.contents, delete_request(Style::Idempotent, path)));
        lemma_call_exempt(end.contents, end.branch[k], path);
    }
    lemma_declared_keys_exempt(tools, key, end.branch, end.contents);
}

/// The agent asks what it asks in some run of it.
proof fn lemma_asked_in_a_run(style: Style, start: ReplayState, steps: Seq<Step>) -> (r: (
    Seq<Exchange>,
    Report,
))
    requires
        agent_asks(style).contains((start, steps)),
    ensures
        agent_ran(style, r.0, r.1),
        steps == one_by_one(r.0),
{
    choose|run: Seq<Exchange>, report: Report| #[trigger]
        agent_ran(style, run, report) && replayed(start, run) && steps == one_by_one(run)
}

/// A short run without a repeated delete breaches nothing.
proof fn lemma_nothing_breached(t: TraceModel, contents: Contents, i: int)
    requires
        t.events.len() <= 24,
        duplicates(seq!["delete_file"@], Some("idempotency_key"@), t.events, contents)
            == Seq::<ViolationModel>::empty(),
        0 <= i < demo_properties().len(),
    ensures
        spec_breaches(demo_properties()[i], t, contents).len() == 0,
{
    let all = demo_properties();
    assert(all.len() == 2);
    if i == 0 {
        assert(all[i] == (SpecModel::NoDuplicateEffects {
            tools: seq!["delete_file"@],
            idempotency_key: Some("idempotency_key"@),
        }));
    } else {
        assert(all[i] == (SpecModel::TerminatesWithin { effects: 24 }));
    }
}

proof fn lemma_steps_pass(start: ReplayState, steps: Seq<Step>, label: Seq<char>, i: int)
    requires
        start.branch.len() == 0,
        agent_asks(Style::Idempotent).contains((start, steps)),
        forall|path: Seq<char>| #[trigger]
            request_kept(
                steps_run(start, steps).contents,
                delete_request(Style::Idempotent, path),
            ),
        0 <= i < demo_properties().len(),
    ensures
        spec_breaches(
            demo_properties()[i],
            branch_of(steps_run(start, steps), label),
            steps_run(start, steps).contents,
        ).len() == 0,
{
    let (run, report) = lemma_asked_in_a_run(Style::Idempotent, start, steps);
    let end = steps_run(start, steps);
    assert(steps == one_by_one(run));
    lemma_run_exempt(start, run, report);
    let t = branch_of(end, label);
    assert(t.events == end.branch);
    lemma_nothing_breached(t, end.contents, i);
}

/// The fix holds under every schedule: whatever faults are injected into a
/// replay of whatever recording, the agent that derives a key from its task
/// breaches nothing that it is held to, where the store gives its requests
/// back as they were put there.
pub proof fn lemma_fix_holds(
    trace: TraceModel,
    before: Contents,
    schedule: Seq<PointModel>,
    end: ReplayState,
    label: Seq<char>,
    i: int,
)
    requires
        may_end(trace, before, schedule, end, agent_asks(Style::Idempotent)),
        forall|path: Seq<char>| #[trigger]
            request_kept(end.contents, delete_request(Style::Idempotent, path)),
        0 <= i < demo_properties().len(),
    ensures
        spec_breaches(demo_properties()[i], branch_of(end, label), end.contents).len() == 0,
{
    let steps = choose|steps: Seq<Step>|
        agent_asks(Style::Idempotent).contains(
            (
                replay_start(trace, before, ModeModel::Counterfactual { schedule }),
                steps,
            ),
        ) && end == #[trigger] steps_run(
            replay_start(trace, before, ModeModel::Counterfactual { schedule }),
            steps,
        );
    lemma_steps_pass(
        replay_start(trace, before, ModeModel::Counterfactual { schedule }),
        steps,
        label,
        i,
    );
}

} // verus!
