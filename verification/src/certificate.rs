//! A record of what was verified.
//!
//! A tool that says that all checks passed is asking to be trusted. A
//! certificate says which checks ran, how many there were, and where the
//! bounds of the claim are. It holds no times, durations or machine names, so
//! the same run gives the same bytes, and a change that quietly checks less
//! shows up as a changed line.

use crate::coverage::{coverage_claim, Case, CaseModel, Coverage, CoverageModel};
use crate::fault::FaultSchedule;
use crate::hash::{has_short, short_of, Digest};
use crate::invariants::{Violation, ViolationModel};
use crate::json::{depth_limit, exact, items_of, json_read, reason, tidy, Json, JsonModel};
use crate::model::{viewed, views};
use crate::orderings::{lists, order_claim, Interleavings, InterleavingsModel};
use crate::record::{
    check_record, field, field_of, is_record, lemma_lookup_put, lemma_sound_empty, lemma_sound_put,
    no_fields, number, put, put_field, read_digest, read_size, read_sizes, read_text, read_whole,
    schedule_from, schedule_json, size_in, sizes_in, sizes_json, some_whole, text_in, whole_in,
    Fields,
};
use crate::text::{
    decimal, join, joined, quote, quoted, same, same_list, show, show_size, texts,
};
use crate::trace::{list_to_json, read_list, texts_in, texts_json};
use vstd::prelude::*;
use vstd::utf8::encode_utf8;

verus! {

/// The overall result.
#[derive(Clone, Copy, Debug, PartialEq, Eq, Structural)]
pub enum Verdict {
    /// Nothing broke, within the stated bounds.
    Clean,
    /// Something broke. The certificate records what.
    Broken,
}

/// What was checked, and what happened.
#[derive(Debug, PartialEq, Eq)]
pub struct Certificate {
    /// The version of this format.
    pub version: u32,
    /// The engine that produced it. A different engine is a different claim.
    pub engine: String,
    /// The run this is about.
    pub trace: Digest,
    /// The label from the header of the trace.
    pub label: String,
    /// The invariants that were enforced. Narrowing this list weakens every
    /// claim below it.
    pub invariants: Vec<String>,
    pub coverage: Coverage,
    pub interleavings: Vec<Interleavings>,
    pub verdict: Verdict,
    /// The claims, as the tool would state them.
    pub claims: Vec<String>,
}

/// The version of this format.
pub const CERTIFICATE_VERSION: u32 = 1;

/// What a certificate is, for contracts.
#[verifier::ext_equal]
pub struct CertificateModel {
    pub version: u32,
    pub engine: Seq<char>,
    pub trace: Seq<char>,
    pub label: Seq<char>,
    pub invariants: Seq<Seq<char>>,
    pub coverage: CoverageModel,
    pub interleavings: Seq<InterleavingsModel>,
    pub verdict: Verdict,
    pub claims: Seq<Seq<char>>,
}

impl View for Certificate {
    type V = CertificateModel;

    open spec fn view(&self) -> CertificateModel {
        CertificateModel {
            version: self.version,
            engine: self.engine@,
            trace: self.trace@,
            label: self.label@,
            invariants: texts(self.invariants@),
            coverage: self.coverage@,
            interleavings: views(self.interleavings@),
            verdict: self.verdict,
            claims: texts(self.claims@),
        }
    }
}

// ---------------------------------------------------------------------------
// Issuing
// ---------------------------------------------------------------------------

/// Whether no order of any batch changed anything.
pub open spec fn all_independent(reports: Seq<InterleavingsModel>) -> bool {
    forall|i: int| 0 <= i < reports.len() ==> (#[trigger] reports[i]).divergent.len() == 0
}

/// The claims of a sweep and of its orderings.
pub open spec fn claims_of(coverage: CoverageModel, reports: Seq<InterleavingsModel>) -> Seq<
    Seq<char>,
> {
    seq![coverage_claim(coverage)] + Seq::new(reports.len(), |i: int| order_claim(reports[i]))
}

/// The certificate on a run.
pub open spec fn issued(
    trace: Seq<char>,
    label: Seq<char>,
    invariants: Seq<Seq<char>>,
    coverage: CoverageModel,
    interleavings: Seq<InterleavingsModel>,
) -> CertificateModel {
    CertificateModel {
        version: CERTIFICATE_VERSION,
        engine: "samsara/0.1.0"@,
        trace,
        label,
        invariants,
        coverage,
        interleavings,
        verdict: if coverage.failures.len() == 0 && all_independent(interleavings) {
            Verdict::Clean
        } else {
            Verdict::Broken
        },
        claims: claims_of(coverage, interleavings),
    }
}

impl Certificate {
    /// The certificate on a run.
    pub fn new(
        trace: Digest,
        label: String,
        invariants: Vec<String>,
        coverage: Coverage,
        interleavings: Vec<Interleavings>,
    ) -> (r: Self)
        ensures
            r@ == issued(
                trace@,
                label@,
                texts(invariants@),
                coverage@,
                views(interleavings@),
            ),
    {
        let ghost reports = views(interleavings@);
        let mut independent = true;
        let mut claims: Vec<String> = Vec::new();
        claims.push(coverage.claim());
        let mut i: usize = 0;
        while i < interleavings.len()
            invariant
                i <= interleavings@.len(),
                reports == views(interleavings@),
                independent == all_independent(reports.take(i as int)),
                claims@.len() == i + 1,
                claims@[0]@ == coverage_claim(coverage@),
                forall|k: int| 0 <= k < i ==> (#[trigger] claims@[k + 1])@ == order_claim(reports[k]),
            decreases interleavings@.len() - i,
        {
            let ghost before = independent;
            let ghost sofar = claims@;
            if !interleavings[i].is_order_independent() {
                independent = false;
            }
            claims.push(interleavings[i].claim());
            proof {
                assert(reports[i as int] == interleavings@[i as int]@);
                assert(reports.take(i + 1)[i as int] == reports[i as int]);
                if all_independent(reports.take(i + 1)) {
                    assert forall|k: int| 0 <= k < i implies (#[trigger] reports.take(
                        i as int,
                    )[k]).divergent.len() == 0 by {
                        assert(reports.take(i + 1)[k] == reports[k]);
                    }
                }
                if before && independent {
                    assert forall|k: int| 0 <= k < i + 1 implies (#[trigger] reports.take(
                        i + 1,
                    )[k]).divergent.len() == 0 by {
                        if k < i {
                            assert(reports.take(i as int)[k] == reports[k]);
                        }
                    }
                }
                assert forall|k: int| 0 <= k < i + 1 implies (#[trigger] claims@[k + 1])@
                    == order_claim(reports[k]) by {
                    if k < i {
                        assert(claims@[k + 1] == sofar[k + 1]);
                    }
                }
            }
            i += 1;
        }
        proof {
            assert(reports.take(i as int) =~= reports);
            assert forall|k: int| 0 <= k < claims@.len() implies (#[trigger] texts(claims@)[k])
                == claims_of(coverage@, reports)[k] by {
                if k > 0 {
                    assert(claims@[(k - 1) + 1]@ == order_claim(reports[k - 1]));
                }
            }
            assert(texts(claims@) =~= claims_of(coverage@, reports));
        }
        let verdict = if coverage.is_clean() && independent {
            Verdict::Clean
        } else {
            Verdict::Broken
        };
        Certificate {
            version: CERTIFICATE_VERSION,
            engine: "samsara/0.1.0".to_owned(),
            trace,
            label,
            invariants,
            coverage,
            interleavings,
            verdict,
            claims,
        }
    }
}

// ---------------------------------------------------------------------------
// As JSON
// ---------------------------------------------------------------------------

/// A place that may be unknown, as a document.
pub open spec fn place_json(at: Option<u64>) -> JsonModel {
    match at {
        Some(n) => number(n),
        None => JsonModel::Null,
    }
}

/// The fields of a violation.
pub open spec fn violation_fields(v: ViolationModel) -> Fields {
    let f1 = put(seq![], "invariant"@, JsonModel::Text(v.invariant));
    let f2 = put(f1, "at_seq"@, place_json(v.at_seq));
    put(f2, "detail"@, JsonModel::Text(v.detail))
}

/// A violation as a document.
pub open spec fn violation_json(v: ViolationModel) -> JsonModel {
    JsonModel::Object(violation_fields(v))
}

/// The violation a document stands for.
pub open spec fn violation_from(m: JsonModel) -> Option<ViolationModel> {
    let broken = text_in(field(m, 0, "invariant"@));
    let at_seq = some_whole(field(m, 1, "at_seq"@));
    let detail = text_in(field(m, 2, "detail"@));
    if is_record(m, 3) && broken is Some && at_seq is Some && detail is Some {
        Some(ViolationModel { invariant: broken->0, at_seq: at_seq->0, detail: detail->0 })
    } else {
        None
    }
}

/// Stands for each key, so that different keys have different numbers.
spec fn violation_key(key: Seq<char>) -> int {
    key.len() * 0x100_0000 + key[0] as int
}

proof fn lemma_violation_keys()
    ensures
        violation_key("invariant"@) == 9 * 0x100_0000 + 'i' as int,
        violation_key("at_seq"@) == 6 * 0x100_0000 + 'a' as int,
        violation_key("detail"@) == 6 * 0x100_0000 + 'd' as int,
{
    reveal_strlit("invariant");
    reveal_strlit("at_seq");
    reveal_strlit("detail");
}

/// A violation is read back as it was written.
pub proof fn lemma_violation_back(v: ViolationModel)
    ensures
        violation_from(violation_json(v)) == Some(v),
        tidy(violation_json(v)),
        exact(violation_json(v), 1),
{
    broadcast use lemma_lookup_put;

    lemma_violation_keys();
    let f0 = Seq::<(Seq<char>, JsonModel)>::empty();
    let f1 = put(f0, "invariant"@, JsonModel::Text(v.invariant));
    let f2 = put(f1, "at_seq"@, place_json(v.at_seq));
    lemma_sound_empty(0);
    lemma_sound_put(f0, 0, "invariant"@, JsonModel::Text(v.invariant));
    lemma_sound_put(f1, 0, "at_seq"@, place_json(v.at_seq));
    lemma_sound_put(f2, 0, "detail"@, JsonModel::Text(v.detail));
    assert(violation_from(violation_json(v))->0 == v);
}

/// A list of violations as a document.
pub open spec fn violations_json(list: Seq<ViolationModel>) -> JsonModel {
    JsonModel::Array(Seq::new(list.len(), |i: int| violation_json(list[i])))
}

/// The violations in a field, where each is one.
pub open spec fn violations_in(m: Option<JsonModel>) -> Option<Seq<ViolationModel>> {
    match m {
        Some(JsonModel::Array(items)) => if forall|i: int|
            0 <= i < items.len() ==> violation_from(#[trigger] items[i]) is Some {
            Some(Seq::new(items.len(), |i: int| violation_from(items[i])->0))
        } else {
            None
        },
        _ => None,
    }
}

pub proof fn lemma_violations_back(list: Seq<ViolationModel>)
    ensures
        violations_in(Some(violations_json(list))) == Some(list),
        tidy(violations_json(list)),
        exact(violations_json(list), 2),
{
    let items = violations_json(list)->Array_0;
    assert forall|i: int| 0 <= i < items.len() implies violation_from(#[trigger] items[i]) == Some(
        list[i],
    ) && tidy(items[i]) && exact(items[i], 1) by {
        lemma_violation_back(list[i]);
    }
    assert(violations_in(Some(violations_json(list)))->0 =~= list);
}

/// The fields of a case.
pub open spec fn case_fields(c: CaseModel) -> Fields {
    let f1 = put(seq![], "schedule"@, schedule_json(c.schedule));
    let f2 = put(f1, "description"@, JsonModel::Text(c.description));
    put(f2, "violations"@, violations_json(c.violations))
}

/// A case as a document.
pub open spec fn case_json(c: CaseModel) -> JsonModel {
    JsonModel::Object(case_fields(c))
}

/// The schedule in a field that is there.
pub open spec fn schedule_in(m: Option<JsonModel>) -> Option<Seq<crate::fault::PointModel>> {
    match m {
        Some(v) => schedule_from(v),
        None => None,
    }
}

/// The case a document stands for.
pub open spec fn case_from(m: JsonModel) -> Option<CaseModel> {
    let schedule = schedule_in(field(m, 0, "schedule"@));
    let description = text_in(field(m, 1, "description"@));
    let violations = violations_in(field(m, 2, "violations"@));
    if is_record(m, 3) && schedule is Some && description is Some && violations is Some {
        Some(
            CaseModel {
                schedule: schedule->0,
                description: description->0,
                violations: violations->0,
            },
        )
    } else {
        None
    }
}

/// Stands for each key, so that different keys have different numbers.
spec fn case_key(key: Seq<char>) -> int {
    key.len() * 0x100_0000 + key[0] as int
}

proof fn lemma_case_keys()
    ensures
        case_key("schedule"@) == 8 * 0x100_0000 + 's' as int,
        case_key("description"@) == 11 * 0x100_0000 + 'd' as int,
        case_key("violations"@) == 10 * 0x100_0000 + 'v' as int,
{
    reveal_strlit("schedule");
    reveal_strlit("description");
    reveal_strlit("violations");
}

/// A case is read back as it was written.
pub proof fn lemma_case_back(c: CaseModel)
    ensures
        case_from(case_json(c)) == Some(c),
        tidy(case_json(c)),
        exact(case_json(c), 6),
{
    broadcast use lemma_lookup_put;

    lemma_case_keys();
    crate::record::lemma_schedule_back(c.schedule);
    lemma_violations_back(c.violations);
    crate::json::lemma_exact_grows(violations_json(c.violations), 2, 5);
    let f0 = Seq::<(Seq<char>, JsonModel)>::empty();
    let f1 = put(f0, "schedule"@, schedule_json(c.schedule));
    let f2 = put(f1, "description"@, JsonModel::Text(c.description));
    lemma_sound_empty(5);
    lemma_sound_put(f0, 5, "schedule"@, schedule_json(c.schedule));
    lemma_sound_put(f1, 5, "description"@, JsonModel::Text(c.description));
    lemma_sound_put(f2, 5, "violations"@, violations_json(c.violations));
    assert(case_from(case_json(c))->0 == c);
}

/// A list of cases as a document.
pub open spec fn cases_json(list: Seq<CaseModel>) -> JsonModel {
    JsonModel::Array(Seq::new(list.len(), |i: int| case_json(list[i])))
}

/// The cases in a field, where each is one.
pub open spec fn cases_in(m: Option<JsonModel>) -> Option<Seq<CaseModel>> {
    match m {
        Some(JsonModel::Array(items)) => if forall|i: int|
            0 <= i < items.len() ==> case_from(#[trigger] items[i]) is Some {
            Some(Seq::new(items.len(), |i: int| case_from(items[i])->0))
        } else {
            None
        },
        _ => None,
    }
}

proof fn lemma_cases_back(list: Seq<CaseModel>)
    ensures
        cases_in(Some(cases_json(list))) == Some(list),
        tidy(cases_json(list)),
        exact(cases_json(list), 7),
{
    let items = cases_json(list)->Array_0;
    assert forall|i: int| 0 <= i < items.len() implies case_from(#[trigger] items[i]) == Some(
        list[i],
    ) && tidy(items[i]) && exact(items[i], 6) by {
        lemma_case_back(list[i]);
    }
    assert(cases_in(Some(cases_json(list)))->0 =~= list);
}

/// The fields of a coverage.
pub open spec fn coverage_fields(c: CoverageModel) -> Fields {
    let f1 = put(seq![], "positions"@, number(c.positions as u64));
    let f2 = put(f1, "kinds"@, number(c.kinds as u64));
    let f3 = put(f2, "singles_checked"@, number(c.singles_checked as u64));
    let f4 = put(f3, "singles_exhaustive"@, JsonModel::Bool(c.singles_exhaustive));
    let f5 = put(f4, "pairs_checked"@, number(c.pairs_checked as u64));
    let f6 = put(f5, "pairs_exhaustive"@, JsonModel::Bool(c.pairs_exhaustive));
    let f7 = put(f6, "replays"@, number(c.replays as u64));
    put(f7, "failures"@, cases_json(c.failures))
}

/// A coverage as a document.
pub open spec fn coverage_json(c: CoverageModel) -> JsonModel {
    JsonModel::Object(coverage_fields(c))
}

/// The truth value in a field that is there.
pub open spec fn bool_in(m: Option<JsonModel>) -> Option<bool> {
    match m {
        Some(JsonModel::Bool(b)) => Some(b),
        _ => None,
    }
}

/// The coverage a document stands for.
pub open spec fn coverage_from(m: JsonModel) -> Option<CoverageModel> {
    let positions = size_in(field(m, 0, "positions"@));
    let kinds = size_in(field(m, 1, "kinds"@));
    let singles_checked = size_in(field(m, 2, "singles_checked"@));
    let singles_exhaustive = bool_in(field(m, 3, "singles_exhaustive"@));
    let pairs_checked = size_in(field(m, 4, "pairs_checked"@));
    let pairs_exhaustive = bool_in(field(m, 5, "pairs_exhaustive"@));
    let replays = size_in(field(m, 6, "replays"@));
    let failures = cases_in(field(m, 7, "failures"@));
    if is_record(m, 8) && positions is Some && kinds is Some && singles_checked is Some
        && singles_exhaustive is Some && pairs_checked is Some && pairs_exhaustive is Some
        && replays is Some && failures is Some {
        Some(
            CoverageModel {
                positions: positions->0,
                kinds: kinds->0,
                singles_checked: singles_checked->0,
                singles_exhaustive: singles_exhaustive->0,
                pairs_checked: pairs_checked->0,
                pairs_exhaustive: pairs_exhaustive->0,
                replays: replays->0,
                failures: failures->0,
            },
        )
    } else {
        None
    }
}

/// Stands for each key, so that different keys have different numbers.
spec fn coverage_key(key: Seq<char>) -> int {
    key.len() * 0x100_0000 + key[0] as int
}

proof fn lemma_coverage_keys()
    ensures
        coverage_key("positions"@) == 9 * 0x100_0000 + 'p' as int,
        coverage_key("kinds"@) == 5 * 0x100_0000 + 'k' as int,
        coverage_key("singles_checked"@) == 15 * 0x100_0000 + 's' as int,
        coverage_key("singles_exhaustive"@) == 18 * 0x100_0000 + 's' as int,
        coverage_key("pairs_checked"@) == 13 * 0x100_0000 + 'p' as int,
        coverage_key("pairs_exhaustive"@) == 16 * 0x100_0000 + 'p' as int,
        coverage_key("replays"@) == 7 * 0x100_0000 + 'r' as int,
        coverage_key("failures"@) == 8 * 0x100_0000 + 'f' as int,
{
    reveal_strlit("positions");
    reveal_strlit("kinds");
    reveal_strlit("singles_checked");
    reveal_strlit("singles_exhaustive");
    reveal_strlit("pairs_checked");
    reveal_strlit("pairs_exhaustive");
    reveal_strlit("replays");
    reveal_strlit("failures");
}

/// A coverage is read back as it was written.
pub proof fn lemma_coverage_back(c: CoverageModel)
    ensures
        coverage_from(coverage_json(c)) == Some(c),
        tidy(coverage_json(c)),
        exact(coverage_json(c), 8),
{
    broadcast use lemma_lookup_put;

    lemma_coverage_keys();
    lemma_cases_back(c.failures);
    let f0 = Seq::<(Seq<char>, JsonModel)>::empty();
    let f1 = put(f0, "positions"@, number(c.positions as u64));
    let f2 = put(f1, "kinds"@, number(c.kinds as u64));
    let f3 = put(f2, "singles_checked"@, number(c.singles_checked as u64));
    let f4 = put(f3, "singles_exhaustive"@, JsonModel::Bool(c.singles_exhaustive));
    let f5 = put(f4, "pairs_checked"@, number(c.pairs_checked as u64));
    let f6 = put(f5, "pairs_exhaustive"@, JsonModel::Bool(c.pairs_exhaustive));
    let f7 = put(f6, "replays"@, number(c.replays as u64));
    lemma_sound_empty(7);
    lemma_sound_put(f0, 7, "positions"@, number(c.positions as u64));
    lemma_sound_put(f1, 7, "kinds"@, number(c.kinds as u64));
    lemma_sound_put(f2, 7, "singles_checked"@, number(c.singles_checked as u64));
    lemma_sound_put(f3, 7, "singles_exhaustive"@, JsonModel::Bool(c.singles_exhaustive));
    lemma_sound_put(f4, 7, "pairs_checked"@, number(c.pairs_checked as u64));
    lemma_sound_put(f5, 7, "pairs_exhaustive"@, JsonModel::Bool(c.pairs_exhaustive));
    lemma_sound_put(f6, 7, "replays"@, number(c.replays as u64));
    lemma_sound_put(f7, 7, "failures"@, cases_json(c.failures));
    assert(coverage_from(coverage_json(c))->0 == c);
}

/// A list of orders as a document.
pub open spec fn orders_json(list: Seq<Seq<usize>>) -> JsonModel {
    JsonModel::Array(Seq::new(list.len(), |i: int| sizes_json(list[i])))
}

/// The order a document stands for.
pub open spec fn order_from(m: JsonModel) -> Option<Seq<usize>> {
    match m {
        JsonModel::Array(items) => sizes_in(items),
        _ => None,
    }
}

/// The orders in a field, where each is one.
pub open spec fn orders_in(m: Option<JsonModel>) -> Option<Seq<Seq<usize>>> {
    match m {
        Some(JsonModel::Array(items)) => if forall|i: int|
            0 <= i < items.len() ==> order_from(#[trigger] items[i]) is Some {
            Some(Seq::new(items.len(), |i: int| order_from(items[i])->0))
        } else {
            None
        },
        _ => None,
    }
}

proof fn lemma_order_back(order: Seq<usize>)
    ensures
        order_from(sizes_json(order)) == Some(order),
        tidy(sizes_json(order)),
        exact(sizes_json(order), 1),
{
    let items = sizes_json(order)->Array_0;
    assert forall|i: int| 0 <= i < items.len() implies size_in(Some(#[trigger] items[i])) == Some(
        order[i],
    ) && tidy(items[i]) && exact(items[i], 0) by {}
    assert(sizes_in(items)->0 =~= order);
}

proof fn lemma_orders_back(list: Seq<Seq<usize>>)
    ensures
        orders_in(Some(orders_json(list))) == Some(list),
        tidy(orders_json(list)),
        exact(orders_json(list), 2),
{
    let items = orders_json(list)->Array_0;
    assert forall|i: int| 0 <= i < items.len() implies order_from(#[trigger] items[i]) == Some(
        list[i],
    ) && tidy(items[i]) && exact(items[i], 1) by {
        lemma_order_back(list[i]);
    }
    assert(orders_in(Some(orders_json(list)))->0 =~= list);
}

/// The fields of a report on a batch.
pub open spec fn report_fields(i: InterleavingsModel) -> Fields {
    let f1 = put(seq![], "batch"@, number(i.batch));
    let f2 = put(f1, "width"@, number(i.width as u64));
    let f3 = put(f2, "total"@, number(i.total));
    let f4 = put(f3, "checked"@, number(i.checked as u64));
    let f5 = put(f4, "exhaustive"@, JsonModel::Bool(i.exhaustive));
    let f6 = put(f5, "divergent"@, orders_json(i.divergent));
    let f7 = put(f6, "commuting_pairs"@, number(i.commuting_pairs as u64));
    let f8 = put(f7, "adjacent_pairs"@, number(i.adjacent_pairs as u64));
    put(f8, "replays"@, number(i.replays as u64))
}

/// A report on a batch as a document.
pub open spec fn report_json(i: InterleavingsModel) -> JsonModel {
    JsonModel::Object(report_fields(i))
}

/// The report on a batch that a document stands for.
pub open spec fn report_from(m: JsonModel) -> Option<InterleavingsModel> {
    let batch = whole_in(field(m, 0, "batch"@));
    let width = size_in(field(m, 1, "width"@));
    let total = whole_in(field(m, 2, "total"@));
    let checked = size_in(field(m, 3, "checked"@));
    let exhaustive = bool_in(field(m, 4, "exhaustive"@));
    let divergent = orders_in(field(m, 5, "divergent"@));
    let commuting_pairs = size_in(field(m, 6, "commuting_pairs"@));
    let adjacent_pairs = size_in(field(m, 7, "adjacent_pairs"@));
    let replays = size_in(field(m, 8, "replays"@));
    if is_record(m, 9) && batch is Some && width is Some && total is Some && checked is Some
        && exhaustive is Some && divergent is Some && commuting_pairs is Some
        && adjacent_pairs is Some && replays is Some {
        Some(
            InterleavingsModel {
                batch: batch->0,
                width: width->0,
                total: total->0,
                checked: checked->0,
                exhaustive: exhaustive->0,
                divergent: divergent->0,
                commuting_pairs: commuting_pairs->0,
                adjacent_pairs: adjacent_pairs->0,
                replays: replays->0,
            },
        )
    } else {
        None
    }
}

/// Stands for each key, so that different keys have different numbers.
spec fn report_key(key: Seq<char>) -> int {
    key.len() * 0x100_0000 + key[0] as int
}

proof fn lemma_report_keys()
    ensures
        report_key("batch"@) == 5 * 0x100_0000 + 'b' as int,
        report_key("width"@) == 5 * 0x100_0000 + 'w' as int,
        report_key("total"@) == 5 * 0x100_0000 + 't' as int,
        report_key("checked"@) == 7 * 0x100_0000 + 'c' as int,
        report_key("exhaustive"@) == 10 * 0x100_0000 + 'e' as int,
        report_key("divergent"@) == 9 * 0x100_0000 + 'd' as int,
        report_key("commuting_pairs"@) == 15 * 0x100_0000 + 'c' as int,
        report_key("adjacent_pairs"@) == 14 * 0x100_0000 + 'a' as int,
        report_key("replays"@) == 7 * 0x100_0000 + 'r' as int,
{
    reveal_strlit("batch");
    reveal_strlit("width");
    reveal_strlit("total");
    reveal_strlit("checked");
    reveal_strlit("exhaustive");
    reveal_strlit("divergent");
    reveal_strlit("commuting_pairs");
    reveal_strlit("adjacent_pairs");
    reveal_strlit("replays");
}

/// A report on a batch is read back as it was written.
pub proof fn lemma_report_back(i: InterleavingsModel)
    ensures
        report_from(report_json(i)) == Some(i),
        tidy(report_json(i)),
        exact(report_json(i), 3),
{
    broadcast use lemma_lookup_put;

    lemma_report_keys();
    lemma_orders_back(i.divergent);
    let f0 = Seq::<(Seq<char>, JsonModel)>::empty();
    let f1 = put(f0, "batch"@, number(i.batch));
    let f2 = put(f1, "width"@, number(i.width as u64));
    let f3 = put(f2, "total"@, number(i.total));
    let f4 = put(f3, "checked"@, number(i.checked as u64));
    let f5 = put(f4, "exhaustive"@, JsonModel::Bool(i.exhaustive));
    let f6 = put(f5, "divergent"@, orders_json(i.divergent));
    let f7 = put(f6, "commuting_pairs"@, number(i.commuting_pairs as u64));
    let f8 = put(f7, "adjacent_pairs"@, number(i.adjacent_pairs as u64));
    lemma_sound_empty(2);
    lemma_sound_put(f0, 2, "batch"@, number(i.batch));
    lemma_sound_put(f1, 2, "width"@, number(i.width as u64));
    lemma_sound_put(f2, 2, "total"@, number(i.total));
    lemma_sound_put(f3, 2, "checked"@, number(i.checked as u64));
    lemma_sound_put(f4, 2, "exhaustive"@, JsonModel::Bool(i.exhaustive));
    lemma_sound_put(f5, 2, "divergent"@, orders_json(i.divergent));
    lemma_sound_put(f6, 2, "commuting_pairs"@, number(i.commuting_pairs as u64));
    lemma_sound_put(f7, 2, "adjacent_pairs"@, number(i.adjacent_pairs as u64));
    lemma_sound_put(f8, 2, "replays"@, number(i.replays as u64));
    assert(report_from(report_json(i))->0 == i);
}

/// A list of reports on batches as a document.
pub open spec fn reports_json(list: Seq<InterleavingsModel>) -> JsonModel {
    JsonModel::Array(Seq::new(list.len(), |i: int| report_json(list[i])))
}

/// The reports on batches in a field, where each is one.
pub open spec fn reports_in(m: Option<JsonModel>) -> Option<Seq<InterleavingsModel>> {
    match m {
        Some(JsonModel::Array(items)) => if forall|i: int|
            0 <= i < items.len() ==> report_from(#[trigger] items[i]) is Some {
            Some(Seq::new(items.len(), |i: int| report_from(items[i])->0))
        } else {
            None
        },
        _ => None,
    }
}

proof fn lemma_reports_back(list: Seq<InterleavingsModel>)
    ensures
        reports_in(Some(reports_json(list))) == Some(list),
        tidy(reports_json(list)),
        exact(reports_json(list), 4),
{
    let items = reports_json(list)->Array_0;
    assert forall|i: int| 0 <= i < items.len() implies report_from(#[trigger] items[i]) == Some(
        list[i],
    ) && tidy(items[i]) && exact(items[i], 3) by {
        lemma_report_back(list[i]);
    }
    assert(reports_in(Some(reports_json(list)))->0 =~= list);
}

/// The word for a verdict.
pub open spec fn verdict_word(v: Verdict) -> Seq<char> {
    match v {
        Verdict::Clean => "clean"@,
        Verdict::Broken => "broken"@,
    }
}

/// The verdict that a word stands for.
pub open spec fn verdict_named(name: Seq<char>) -> Option<Verdict> {
    if name == "clean"@ {
        Some(Verdict::Clean)
    } else if name == "broken"@ {
        Some(Verdict::Broken)
    } else {
        None
    }
}

/// The verdict in a field: its word, or an object whose only key is that
/// word.
pub open spec fn verdict_in(m: Option<JsonModel>) -> Option<Verdict> {
    match m {
        Some(JsonModel::Text(name)) => verdict_named(name),
        Some(JsonModel::Object(fields)) => if fields.len() == 1 && fields[0].1
            == JsonModel::Null {
            verdict_named(fields[0].0)
        } else {
            None
        },
        _ => None,
    }
}

/// The texts in a field that is there, where each is one.
pub open spec fn list_in(m: Option<JsonModel>) -> Option<Seq<Seq<char>>> {
    match m {
        Some(JsonModel::Array(items)) => texts_in(items),
        _ => None,
    }
}

proof fn lemma_list_back(list: Seq<Seq<char>>)
    ensures
        list_in(Some(texts_json(list))) == Some(list),
        tidy(texts_json(list)),
        exact(texts_json(list), 1),
{
    let items = texts_json(list)->Array_0;
    assert forall|i: int| 0 <= i < items.len() implies crate::json::text(#[trigger] items[i])
        == Some(list[i]) && tidy(items[i]) && exact(items[i], 0) by {}
    assert(texts_in(items)->0 =~= list);
}

/// The fields of a certificate.
pub open spec fn certificate_fields(c: CertificateModel) -> Fields {
    let f1 = put(seq![], "version"@, number(c.version as u64));
    let f2 = put(f1, "engine"@, JsonModel::Text(c.engine));
    let f3 = put(f2, "trace"@, JsonModel::Text(c.trace));
    let f4 = put(f3, "label"@, JsonModel::Text(c.label));
    let f5 = put(f4, "invariants"@, texts_json(c.invariants));
    let f6 = put(f5, "coverage"@, coverage_json(c.coverage));
    let f7 = put(f6, "interleavings"@, reports_json(c.interleavings));
    let f8 = put(f7, "verdict"@, JsonModel::Text(verdict_word(c.verdict)));
    put(f8, "claims"@, texts_json(c.claims))
}

/// A certificate as a document.
pub open spec fn certificate_json(c: CertificateModel) -> JsonModel {
    JsonModel::Object(certificate_fields(c))
}

/// The coverage in a field that is there.
pub open spec fn coverage_in(m: Option<JsonModel>) -> Option<CoverageModel> {
    match m {
        Some(v) => coverage_from(v),
        None => None,
    }
}

/// The certificate a document stands for.
pub open spec fn certificate_from(m: JsonModel) -> Option<CertificateModel> {
    let version = whole_in(field(m, 0, "version"@));
    let engine = text_in(field(m, 1, "engine"@));
    let trace = text_in(field(m, 2, "trace"@));
    let label = text_in(field(m, 3, "label"@));
    let invariants = list_in(field(m, 4, "invariants"@));
    let coverage = coverage_in(field(m, 5, "coverage"@));
    let interleavings = reports_in(field(m, 6, "interleavings"@));
    let verdict = verdict_in(field(m, 7, "verdict"@));
    let claims = list_in(field(m, 8, "claims"@));
    if is_record(m, 9) && version is Some && version->0 <= u32::MAX && engine is Some
        && trace is Some && label is Some && invariants is Some && coverage is Some
        && interleavings is Some && verdict is Some && claims is Some {
        Some(
            CertificateModel {
                version: version->0 as u32,
                engine: engine->0,
                trace: trace->0,
                label: label->0,
                invariants: invariants->0,
                coverage: coverage->0,
                interleavings: interleavings->0,
                verdict: verdict->0,
                claims: claims->0,
            },
        )
    } else {
        None
    }
}

/// Stands for each key, so that different keys have different numbers.
spec fn certificate_key(key: Seq<char>) -> int {
    key.len() * 0x100_0000_0000_0000 + key[0] as int * 0x100_0000 + key[3] as int
}

proof fn lemma_certificate_keys()
    ensures
        certificate_key("version"@) == 7 * 0x100_0000_0000_0000 + 'v' as int * 0x100_0000
            + 's' as int,
        certificate_key("engine"@) == 6 * 0x100_0000_0000_0000 + 'e' as int * 0x100_0000
            + 'i' as int,
        certificate_key("trace"@) == 5 * 0x100_0000_0000_0000 + 't' as int * 0x100_0000
            + 'c' as int,
        certificate_key("label"@) == 5 * 0x100_0000_0000_0000 + 'l' as int * 0x100_0000
            + 'e' as int,
        certificate_key("invariants"@) == 10 * 0x100_0000_0000_0000 + 'i' as int * 0x100_0000
            + 'a' as int,
        certificate_key("coverage"@) == 8 * 0x100_0000_0000_0000 + 'c' as int * 0x100_0000
            + 'e' as int,
        certificate_key("interleavings"@) == 13 * 0x100_0000_0000_0000 + 'i' as int * 0x100_0000
            + 'e' as int,
        certificate_key("verdict"@) == 7 * 0x100_0000_0000_0000 + 'v' as int * 0x100_0000
            + 'd' as int,
        certificate_key("claims"@) == 6 * 0x100_0000_0000_0000 + 'c' as int * 0x100_0000
            + 'i' as int,
{
    reveal_strlit("version");
    reveal_strlit("engine");
    reveal_strlit("trace");
    reveal_strlit("label");
    reveal_strlit("invariants");
    reveal_strlit("coverage");
    reveal_strlit("interleavings");
    reveal_strlit("verdict");
    reveal_strlit("claims");
}

/// A certificate is read back as it was written.
pub proof fn lemma_certificate_back(c: CertificateModel)
    ensures
        certificate_from(certificate_json(c)) == Some(c),
        tidy(certificate_json(c)),
        exact(certificate_json(c), 9),
{
    broadcast use lemma_lookup_put;

    lemma_certificate_keys();
    reveal_strlit("clean");
    reveal_strlit("broken");
    assert("clean"@.len() == 5 && "broken"@.len() == 6);
    lemma_list_back(c.invariants);
    lemma_list_back(c.claims);
    lemma_coverage_back(c.coverage);
    lemma_reports_back(c.interleavings);
    crate::json::lemma_exact_grows(texts_json(c.invariants), 1, 8);
    crate::json::lemma_exact_grows(texts_json(c.claims), 1, 8);
    crate::json::lemma_exact_grows(reports_json(c.interleavings), 4, 8);
    let f0 = Seq::<(Seq<char>, JsonModel)>::empty();
    let f1 = put(f0, "version"@, number(c.version as u64));
    let f2 = put(f1, "engine"@, JsonModel::Text(c.engine));
    let f3 = put(f2, "trace"@, JsonModel::Text(c.trace));
    let f4 = put(f3, "label"@, JsonModel::Text(c.label));
    let f5 = put(f4, "invariants"@, texts_json(c.invariants));
    let f6 = put(f5, "coverage"@, coverage_json(c.coverage));
    let f7 = put(f6, "interleavings"@, reports_json(c.interleavings));
    let f8 = put(f7, "verdict"@, JsonModel::Text(verdict_word(c.verdict)));
    lemma_sound_empty(8);
    lemma_sound_put(f0, 8, "version"@, number(c.version as u64));
    lemma_sound_put(f1, 8, "engine"@, JsonModel::Text(c.engine));
    lemma_sound_put(f2, 8, "trace"@, JsonModel::Text(c.trace));
    lemma_sound_put(f3, 8, "label"@, JsonModel::Text(c.label));
    lemma_sound_put(f4, 8, "invariants"@, texts_json(c.invariants));
    lemma_sound_put(f5, 8, "coverage"@, coverage_json(c.coverage));
    lemma_sound_put(f6, 8, "interleavings"@, reports_json(c.interleavings));
    lemma_sound_put(f7, 8, "verdict"@, JsonModel::Text(verdict_word(c.verdict)));
    lemma_sound_put(f8, 8, "claims"@, texts_json(c.claims));
    assert(certificate_from(certificate_json(c))->0 == c);
}

// ---------------------------------------------------------------------------
// Writing and reading
// ---------------------------------------------------------------------------

/// The truth value in a field that is there.
fn read_bool(json: Option<&Json>) -> (r: Option<bool>)
    ensures
        r == bool_in(viewed(json)),
{
    match json {
        Some(Json::Bool(b)) => Some(*b),
        _ => None,
    }
}

impl Violation {
    /// This violation as a document.
    pub fn to_json(&self) -> (r: Json)
        ensures
            r@ == violation_json(self@),
    {
        let mut fields = no_fields();
        put_field(&mut fields, "invariant", Json::text(self.invariant.as_str()));
        let place = match self.at_seq {
            Some(n) => Json::whole(n),
            None => Json::Null,
        };
        put_field(&mut fields, "at_seq", place);
        put_field(&mut fields, "detail", Json::text(self.detail.as_str()));
        Json::object(fields)
    }

    /// The violation a document stands for.
    pub fn from_json(json: &Json) -> (r: Option<Violation>)
        ensures
            viewed(r) == violation_from(json@),
    {
        if !check_record(json, 3) {
            return None;
        }
        let place = field_of(json, 1, "at_seq");
        let at_seq: Option<u64> = if crate::record::is_left_out(place) {
            None
        } else {
            match read_whole(place) {
                Some(n) => Some(n),
                None => return None,
            }
        };
        match (read_text(field_of(json, 0, "invariant")), read_text(field_of(json, 2, "detail"))) {
            (Some(broken), Some(detail)) => Some(Violation { invariant: broken, at_seq, detail }),
            _ => None,
        }
    }
}

/// A list of violations as a document.
pub(crate) fn write_violations(list: &Vec<Violation>) -> (r: Json)
    ensures
        r@ == violations_json(views(list@)),
{
    let mut items: Vec<Json> = Vec::new();
    let mut i: usize = 0;
    while i < list.len()
        invariant
            i <= list@.len(),
            items@.len() == i,
            forall|k: int| 0 <= k < i ==> (#[trigger] items@[k])@ == violation_json(list@[k]@),
        decreases list@.len() - i,
    {
        items.push(list[i].to_json());
        i += 1;
    }
    assert(items_of(items@) =~= violations_json(views(list@))->Array_0);
    Json::array(items)
}

/// The violations in a field, where each is one.
fn read_violations(json: Option<&Json>) -> (r: Option<Vec<Violation>>)
    ensures
        r is Some <==> violations_in(viewed(json)) is Some,
        r is Some ==> views(r->0@) == violations_in(viewed(json))->0,
{
    match json {
        Some(Json::Array(items)) => {
            proof {
                crate::json::lemma_array_view(*items);
            }
            let ghost all = items_of(items@);
            let mut out: Vec<Violation> = Vec::new();
            let mut i: usize = 0;
            while i < items.len()
                invariant
                    i <= items@.len(),
                    all == items_of(items@),
                    viewed(json) == Some(JsonModel::Array(all)),
                    out@.len() == i,
                    forall|k: int|
                        0 <= k < i ==> violation_from(#[trigger] all[k]) == Some(out@[k]@),
                decreases items@.len() - i,
            {
                assert(all[i as int] == items@[i as int]@);
                match Violation::from_json(&items[i]) {
                    Some(x) => {
                        out.push(x);
                    },
                    None => {
                        return None;
                    },
                }
                i += 1;
            }
            assert(violations_in(viewed(json))->0 =~= views(out@));
            Some(out)
        },
        _ => None,
    }
}

impl Case {
    /// This case as a document.
    pub fn to_json(&self) -> (r: Json)
        ensures
            r@ == case_json(self@),
    {
        let mut fields = no_fields();
        put_field(&mut fields, "schedule", self.schedule.to_json());
        put_field(&mut fields, "description", Json::text(self.description.as_str()));
        put_field(&mut fields, "violations", write_violations(&self.violations));
        Json::object(fields)
    }

    /// The case a document stands for.
    pub fn from_json(json: &Json) -> (r: Option<Case>)
        ensures
            viewed(r) == case_from(json@),
    {
        if !check_record(json, 3) {
            return None;
        }
        let schedule = match field_of(json, 0, "schedule") {
            Some(v) => match FaultSchedule::from_json(v) {
                Some(schedule) => schedule,
                None => return None,
            },
            None => return None,
        };
        let description = match read_text(field_of(json, 1, "description")) {
            Some(description) => description,
            None => return None,
        };
        match read_violations(field_of(json, 2, "violations")) {
            Some(violations) => Some(Case { schedule, description, violations }),
            None => None,
        }
    }
}

/// A list of cases as a document.
fn write_cases(list: &Vec<Case>) -> (r: Json)
    ensures
        r@ == cases_json(views(list@)),
{
    let mut items: Vec<Json> = Vec::new();
    let mut i: usize = 0;
    while i < list.len()
        invariant
            i <= list@.len(),
            items@.len() == i,
            forall|k: int| 0 <= k < i ==> (#[trigger] items@[k])@ == case_json(list@[k]@),
        decreases list@.len() - i,
    {
        items.push(list[i].to_json());
        i += 1;
    }
    assert(items_of(items@) =~= cases_json(views(list@))->Array_0);
    Json::array(items)
}

/// The cases in a field, where each is one.
fn read_cases(json: Option<&Json>) -> (r: Option<Vec<Case>>)
    ensures
        r is Some <==> cases_in(viewed(json)) is Some,
        r is Some ==> views(r->0@) == cases_in(viewed(json))->0,
{
    match json {
        Some(Json::Array(items)) => {
            proof {
                crate::json::lemma_array_view(*items);
            }
            let ghost all = items_of(items@);
            let mut out: Vec<Case> = Vec::new();
            let mut i: usize = 0;
            while i < items.len()
                invariant
                    i <= items@.len(),
                    all == items_of(items@),
                    viewed(json) == Some(JsonModel::Array(all)),
                    out@.len() == i,
                    forall|k: int|
                        0 <= k < i ==> case_from(#[trigger] all[k]) == Some(out@[k]@),
                decreases items@.len() - i,
            {
                assert(all[i as int] == items@[i as int]@);
                match Case::from_json(&items[i]) {
                    Some(x) => {
                        out.push(x);
                    },
                    None => {
                        return None;
                    },
                }
                i += 1;
            }
            assert(cases_in(viewed(json))->0 =~= views(out@));
            Some(out)
        },
        _ => None,
    }
}

impl Coverage {
    /// This coverage as a document.
    pub fn to_json(&self) -> (r: Json)
        ensures
            r@ == coverage_json(self@),
    {
        let mut fields = no_fields();
        put_field(&mut fields, "positions", Json::whole(self.positions as u64));
        put_field(&mut fields, "kinds", Json::whole(self.kinds as u64));
        put_field(&mut fields, "singles_checked", Json::whole(self.singles_checked as u64));
        put_field(&mut fields, "singles_exhaustive", Json::Bool(self.singles_exhaustive));
        put_field(&mut fields, "pairs_checked", Json::whole(self.pairs_checked as u64));
        put_field(&mut fields, "pairs_exhaustive", Json::Bool(self.pairs_exhaustive));
        put_field(&mut fields, "replays", Json::whole(self.replays as u64));
        put_field(&mut fields, "failures", write_cases(&self.failures));
        Json::object(fields)
    }

    /// The coverage a document stands for.
    pub fn from_json(json: &Json) -> (r: Option<Coverage>)
        ensures
            viewed(r) == coverage_from(json@),
    {
        if !check_record(json, 8) {
            return None;
        }
        let failures = match read_cases(field_of(json, 7, "failures")) {
            Some(failures) => failures,
            None => return None,
        };
        match (
            read_size(field_of(json, 0, "positions")),
            read_size(field_of(json, 1, "kinds")),
            read_size(field_of(json, 2, "singles_checked")),
            read_bool(field_of(json, 3, "singles_exhaustive")),
            read_size(field_of(json, 4, "pairs_checked")),
            read_bool(field_of(json, 5, "pairs_exhaustive")),
            read_size(field_of(json, 6, "replays")),
        ) {
            (
                Some(positions),
                Some(kinds),
                Some(singles_checked),
                Some(singles_exhaustive),
                Some(pairs_checked),
                Some(pairs_exhaustive),
                Some(replays),
            ) => Some(
                Coverage {
                    positions,
                    kinds,
                    singles_checked,
                    singles_exhaustive,
                    pairs_checked,
                    pairs_exhaustive,
                    replays,
                    failures,
                },
            ),
            _ => None,
        }
    }
}

/// A list of sizes as a document.
fn write_sizes(list: &Vec<usize>) -> (r: Json)
    ensures
        r@ == sizes_json(list@),
{
    let mut items: Vec<Json> = Vec::new();
    let mut i: usize = 0;
    while i < list.len()
        invariant
            i <= list@.len(),
            items@.len() == i,
            forall|k: int| 0 <= k < i ==> (#[trigger] items@[k])@ == number(list@[k] as u64),
        decreases list@.len() - i,
    {
        items.push(Json::whole(list[i] as u64));
        i += 1;
    }
    assert(items_of(items@) =~= sizes_json(list@)->Array_0);
    Json::array(items)
}

/// A list of orders as a document.
fn write_orders(list: &Vec<Vec<usize>>) -> (r: Json)
    ensures
        r@ == orders_json(lists(list@)),
{
    let mut items: Vec<Json> = Vec::new();
    let mut i: usize = 0;
    while i < list.len()
        invariant
            i <= list@.len(),
            items@.len() == i,
            forall|k: int| 0 <= k < i ==> (#[trigger] items@[k])@ == sizes_json(list@[k]@),
        decreases list@.len() - i,
    {
        items.push(write_sizes(&list[i]));
        i += 1;
    }
    assert(items_of(items@) =~= orders_json(lists(list@))->Array_0);
    Json::array(items)
}

/// The orders in a field, where each is one.
fn read_orders(json: Option<&Json>) -> (r: Option<Vec<Vec<usize>>>)
    ensures
        r is Some <==> orders_in(viewed(json)) is Some,
        r is Some ==> lists(r->0@) == orders_in(viewed(json))->0,
{
    match json {
        Some(Json::Array(items)) => {
            proof {
                crate::json::lemma_array_view(*items);
            }
            let ghost all = items_of(items@);
            let mut out: Vec<Vec<usize>> = Vec::new();
            let mut i: usize = 0;
            while i < items.len()
                invariant
                    i <= items@.len(),
                    all == items_of(items@),
                    viewed(json) == Some(JsonModel::Array(all)),
                    out@.len() == i,
                    forall|k: int|
                        0 <= k < i ==> order_from(#[trigger] all[k]) == Some(out@[k]@),
                decreases items@.len() - i,
            {
                assert(all[i as int] == items@[i as int]@);
                let order = match &items[i] {
                    Json::Array(sizes) => {
                        proof {
                            crate::json::lemma_array_view(*sizes);
                        }
                        match read_sizes(sizes) {
                            Some(order) => order,
                            None => return None,
                        }
                    },
                    _ => return None,
                };
                out.push(order);
                i += 1;
            }
            assert(orders_in(viewed(json))->0 =~= lists(out@));
            Some(out)
        },
        _ => None,
    }
}

impl Interleavings {
    /// This report as a document.
    pub fn to_json(&self) -> (r: Json)
        ensures
            r@ == report_json(self@),
    {
        let mut fields = no_fields();
        put_field(&mut fields, "batch", Json::whole(self.batch));
        put_field(&mut fields, "width", Json::whole(self.width as u64));
        put_field(&mut fields, "total", Json::whole(self.total));
        put_field(&mut fields, "checked", Json::whole(self.checked as u64));
        put_field(&mut fields, "exhaustive", Json::Bool(self.exhaustive));
        put_field(&mut fields, "divergent", write_orders(&self.divergent));
        put_field(&mut fields, "commuting_pairs", Json::whole(self.commuting_pairs as u64));
        put_field(&mut fields, "adjacent_pairs", Json::whole(self.adjacent_pairs as u64));
        put_field(&mut fields, "replays", Json::whole(self.replays as u64));
        Json::object(fields)
    }

    /// The report a document stands for.
    pub fn from_json(json: &Json) -> (r: Option<Interleavings>)
        ensures
            viewed(r) == report_from(json@),
    {
        if !check_record(json, 9) {
            return None;
        }
        let divergent = match read_orders(field_of(json, 5, "divergent")) {
            Some(divergent) => divergent,
            None => return None,
        };
        let exhaustive: bool = match read_bool(field_of(json, 4, "exhaustive")) {
            Some(exhaustive) => exhaustive,
            None => return None,
        };
        match (
            read_whole(field_of(json, 0, "batch")),
            read_size(field_of(json, 1, "width")),
            read_whole(field_of(json, 2, "total")),
            read_size(field_of(json, 3, "checked")),
            read_size(field_of(json, 6, "commuting_pairs")),
            read_size(field_of(json, 7, "adjacent_pairs")),
            read_size(field_of(json, 8, "replays")),
        ) {
            (
                Some(batch),
                Some(width),
                Some(total),
                Some(checked),
                Some(commuting_pairs),
                Some(adjacent_pairs),
                Some(replays),
            ) => Some(
                Interleavings {
                    batch,
                    width,
                    total,
                    checked,
                    exhaustive,
                    divergent,
                    commuting_pairs,
                    adjacent_pairs,
                    replays,
                },
            ),
            _ => None,
        }
    }
}

/// A list of reports on batches as a document.
fn write_reports(list: &Vec<Interleavings>) -> (r: Json)
    ensures
        r@ == reports_json(views(list@)),
{
    let mut items: Vec<Json> = Vec::new();
    let mut i: usize = 0;
    while i < list.len()
        invariant
            i <= list@.len(),
            items@.len() == i,
            forall|k: int| 0 <= k < i ==> (#[trigger] items@[k])@ == report_json(list@[k]@),
        decreases list@.len() - i,
    {
        items.push(list[i].to_json());
        i += 1;
    }
    assert(items_of(items@) =~= reports_json(views(list@))->Array_0);
    Json::array(items)
}

/// The reports on batches in a field, where each is one.
fn read_reports(json: Option<&Json>) -> (r: Option<Vec<Interleavings>>)
    ensures
        r is Some <==> reports_in(viewed(json)) is Some,
        r is Some ==> views(r->0@) == reports_in(viewed(json))->0,
{
    match json {
        Some(Json::Array(items)) => {
            proof {
                crate::json::lemma_array_view(*items);
            }
            let ghost all = items_of(items@);
            let mut out: Vec<Interleavings> = Vec::new();
            let mut i: usize = 0;
            while i < items.len()
                invariant
                    i <= items@.len(),
                    all == items_of(items@),
                    viewed(json) == Some(JsonModel::Array(all)),
                    out@.len() == i,
                    forall|k: int|
                        0 <= k < i ==> report_from(#[trigger] all[k]) == Some(out@[k]@),
                decreases items@.len() - i,
            {
                assert(all[i as int] == items@[i as int]@);
                match Interleavings::from_json(&items[i]) {
                    Some(x) => {
                        out.push(x);
                    },
                    None => {
                        return None;
                    },
                }
                i += 1;
            }
            assert(reports_in(viewed(json))->0 =~= views(out@));
            Some(out)
        },
        _ => None,
    }
}

/// The verdict that a word stands for.
fn verdict_of_name(name: &str) -> (r: Option<Verdict>)
    ensures
        r == verdict_named(name@),
{
    if same(name, "clean") {
        Some(Verdict::Clean)
    } else if same(name, "broken") {
        Some(Verdict::Broken)
    } else {
        None
    }
}

/// The verdict in a field.
fn read_verdict(json: Option<&Json>) -> (r: Option<Verdict>)
    ensures
        r == verdict_in(viewed(json)),
{
    match json {
        Some(Json::Text(name)) => verdict_of_name(name.as_str()),
        Some(Json::Object(fields)) => {
            proof {
                crate::json::lemma_object_view(*fields);
            }
            if fields.len() == 1 && fields[0].1.is_null() {
                verdict_of_name(fields[0].0.as_str())
            } else {
                None
            }
        },
        _ => None,
    }
}

/// The texts in a field that is there, where each is one.
fn read_texts(json: Option<&Json>) -> (r: Option<Vec<String>>)
    ensures
        r is Some <==> list_in(viewed(json)) is Some,
        r is Some ==> texts(r->0@) == list_in(viewed(json))->0,
{
    match json {
        Some(Json::Array(items)) => {
            proof {
                crate::json::lemma_array_view(*items);
            }
            read_list(items)
        },
        _ => None,
    }
}

/// A text that no certificate can be read from.
#[derive(Debug, PartialEq, Eq)]
pub struct BadCertificate {
    /// What is wrong with it.
    pub reason: String,
}

impl Certificate {
    /// This certificate as a document.
    pub fn document(&self) -> (r: Json)
        ensures
            r@ == certificate_json(self@),
    {
        let mut fields = no_fields();
        put_field(&mut fields, "version", Json::whole(self.version as u64));
        put_field(&mut fields, "engine", Json::text(self.engine.as_str()));
        put_field(&mut fields, "trace", Json::text(self.trace.as_str()));
        put_field(&mut fields, "label", Json::text(self.label.as_str()));
        put_field(&mut fields, "invariants", list_to_json(&self.invariants));
        put_field(&mut fields, "coverage", self.coverage.to_json());
        put_field(&mut fields, "interleavings", write_reports(&self.interleavings));
        let word = match self.verdict {
            Verdict::Clean => "clean",
            Verdict::Broken => "broken",
        };
        put_field(&mut fields, "verdict", Json::text(word));
        put_field(&mut fields, "claims", list_to_json(&self.claims));
        Json::object(fields)
    }

    /// This certificate as indented JSON: the same for the same certificate,
    /// so it can be kept and compared.
    pub fn to_json(&self) -> (r: String)
        ensures
            r@ == crate::json::printed_pretty(certificate_json(self@)),
            parsed_certificate(encode_utf8(r@)) == Some(self@),
    {
        proof {
            lemma_certificate_back(self@);
            crate::json::lemma_exact_grows(certificate_json(self@), 9, depth_limit());
        }
        self.document().print_pretty()
    }

    /// The certificate a document stands for.
    pub fn from_document(json: &Json) -> (r: Option<Certificate>)
        ensures
            viewed(r) == certificate_from(json@),
    {
        if !check_record(json, 9) {
            return None;
        }
        let version: u32 = match read_whole(field_of(json, 0, "version")) {
            Some(n) => if n <= u32::MAX as u64 {
                n as u32
            } else {
                return None;
            },
            None => return None,
        };
        let trace = match read_digest(field_of(json, 2, "trace")) {
            Some(trace) => trace,
            None => return None,
        };
        let coverage = match field_of(json, 5, "coverage") {
            Some(v) => match Coverage::from_json(v) {
                Some(coverage) => coverage,
                None => return None,
            },
            None => return None,
        };
        let verdict = match read_verdict(field_of(json, 7, "verdict")) {
            Some(verdict) => verdict,
            None => return None,
        };
        let interleavings = match read_reports(field_of(json, 6, "interleavings")) {
            Some(interleavings) => interleavings,
            None => return None,
        };
        match (
            read_text(field_of(json, 1, "engine")),
            read_text(field_of(json, 3, "label")),
            read_texts(field_of(json, 4, "invariants")),
            read_texts(field_of(json, 8, "claims")),
        ) {
            (Some(engine), Some(label), Some(invariants), Some(claims)) => {
                let out = Certificate {
                    version,
                    engine,
                    trace,
                    label,
                    invariants,
                    coverage,
                    interleavings,
                    verdict,
                    claims,
                };
                assert(out@ =~= certificate_from(json@)->0);
                Some(out)
            },
            _ => None,
        }
    }

    /// Reads a certificate from its JSON.
    pub fn parse(text: &str) -> (r: Result<Self, BadCertificate>)
        ensures
            r is Ok <==> parsed_certificate(encode_utf8(text@)) is Some,
            r is Ok ==> r->Ok_0@ == parsed_certificate(encode_utf8(text@))->0,
            r is Err ==> r->Err_0.reason@ == reason(
                encode_utf8(text@),
                "expected a certificate"@,
            ),
    {
        match Json::try_read(text.as_bytes()) {
            Ok(json) => match Certificate::from_document(&json) {
                Some(certificate) => Ok(certificate),
                None => Err(BadCertificate { reason: "expected a certificate".to_owned() }),
            },
            Err(reason) => Err(BadCertificate { reason }),
        }
    }
}

/// The certificate that bytes stand for.
pub open spec fn parsed_certificate(bytes: Seq<u8>) -> Option<CertificateModel> {
    match json_read(bytes) {
        Some(m) => certificate_from(m),
        None => None,
    }
}

// ---------------------------------------------------------------------------
// Comparing
// ---------------------------------------------------------------------------

/// A verdict's name.
pub open spec fn verdict_name(v: Verdict) -> Seq<char> {
    match v {
        Verdict::Clean => "Clean"@,
        Verdict::Broken => "Broken"@,
    }
}

/// A line, where something holds.
pub open spec fn line_if(holds: bool, line: Seq<char>) -> Seq<Seq<char>> {
    if holds {
        seq![line]
    } else {
        seq![]
    }
}

/// A line about something that was one way and is another.
pub open spec fn moved_line(
    differs: bool,
    what: Seq<char>,
    before: Seq<char>,
    after: Seq<char>,
) -> Seq<Seq<char>> {
    line_if(differs, what + before + " \u{2192} "@ + after)
}

/// A line about a count that was one and is another.
pub open spec fn count_line(what: Seq<char>, before: nat, after: nat) -> Seq<Seq<char>> {
    moved_line(before != after, what, decimal(before), decimal(after))
}

/// A line about a sweep that was complete and is not any more, or the other way
/// round.
pub open spec fn flip_line(
    before: bool,
    after: bool,
    lost: Seq<char>,
    gained: Seq<char>,
) -> Seq<Seq<char>> {
    line_if(
        before != after,
        if before {
            lost
        } else {
            gained
        },
    )
}

/// How the orders of one batch differ between two certificates.
pub open spec fn batch_lines(before: InterleavingsModel, after: InterleavingsModel) -> Seq<
    Seq<char>,
> {
    let head = "batch #"@ + decimal(after.batch as nat);
    count_line(
        head + ": divergent orderings "@,
        before.divergent.len(),
        after.divergent.len(),
    ) + flip_line(
        before.exhaustive,
        after.exhaustive,
        head + ": no longer checked exhaustively"@,
        head + ": now checked exhaustively"@,
    )
}

/// How the orders of the first `n` batches differ between two certificates.
pub open spec fn all_batch_lines(
    before: Seq<InterleavingsModel>,
    after: Seq<InterleavingsModel>,
    n: nat,
) -> Seq<Seq<char>>
    decreases n,
{
    if n == 0 {
        seq![]
    } else {
        all_batch_lines(before, after, (n - 1) as nat) + batch_lines(before[n - 1], after[n - 1])
    }
}

/// How the coverage differs between two certificates.
pub open spec fn coverage_lines(before: CoverageModel, after: CoverageModel) -> Seq<Seq<char>> {
    count_line(
        "single-fault coverage "@,
        before.singles_checked as nat,
        after.singles_checked as nat,
    ) + count_line("pair coverage "@, before.pairs_checked as nat, after.pairs_checked as nat)
        + flip_line(
        before.singles_exhaustive,
        after.singles_exhaustive,
        "single-fault sweep is no longer exhaustive"@,
        "single-fault sweep is now exhaustive"@,
    ) + flip_line(
        before.pairs_exhaustive,
        after.pairs_exhaustive,
        "pair sweep is no longer exhaustive"@,
        "pair sweep is now exhaustive"@,
    ) + count_line("failing schedules "@, before.failures.len(), after.failures.len())
}

/// How what two certificates are about differs.
pub open spec fn subject_lines(before: CertificateModel, after: CertificateModel) -> Seq<
    Seq<char>,
> {
    line_if(
        before.trace != after.trace,
        "different run: certificate is for trace "@ + short_of(before.trace) + ", this is "@
            + short_of(after.trace),
    ) + moved_line(
        before.verdict != after.verdict,
        "verdict changed: "@,
        verdict_name(before.verdict),
        verdict_name(after.verdict),
    ) + moved_line(
        before.invariants != after.invariants,
        "invariants changed: "@,
        quoted_list(before.invariants),
        quoted_list(after.invariants),
    )
}

/// How what was checked differs between two certificates, and with what result.
pub open spec fn listed_changes(before: CertificateModel, after: CertificateModel) -> Seq<
    Seq<char>,
> {
    let old_batches = before.interleavings;
    let new_batches = after.interleavings;
    subject_lines(before, after) + coverage_lines(before.coverage, after.coverage)
        + all_batch_lines(
        old_batches,
        new_batches,
        if old_batches.len() <= new_batches.len() {
            old_batches.len()
        } else {
            new_batches.len()
        },
    ) + count_line("concurrent batches "@, old_batches.len(), new_batches.len())
}

/// How a certificate differs from an earlier one. A difference that is not
/// listed by itself is still one.
pub open spec fn changes(before: CertificateModel, after: CertificateModel) -> Seq<Seq<char>> {
    let listed = listed_changes(before, after);
    listed + line_if(
        listed.len() == 0 && before != after,
        "same coverage, but the certificates are not the same"@,
    )
}

/// Whether a certificate checks just what an earlier one did, with the same
/// results.
pub open spec fn holds_up(before: CertificateModel, after: CertificateModel) -> bool {
    &&& before.trace == after.trace
    &&& before.verdict == after.verdict
    &&& before.invariants == after.invariants
    &&& before.coverage.singles_checked == after.coverage.singles_checked
    &&& before.coverage.pairs_checked == after.coverage.pairs_checked
    &&& before.coverage.singles_exhaustive == after.coverage.singles_exhaustive
    &&& before.coverage.pairs_exhaustive == after.coverage.pairs_exhaustive
    &&& before.coverage.failures.len() == after.coverage.failures.len()
    &&& before.interleavings.len() == after.interleavings.len()
    &&& forall|i: int|
        0 <= i < after.interleavings.len() ==> {
            let a = #[trigger] before.interleavings[i];
            let b = after.interleavings[i];
            a.divergent.len() == b.divergent.len() && a.exhaustive == b.exhaustive
        }
}

proof fn lemma_batch_lines(
    before: Seq<InterleavingsModel>,
    after: Seq<InterleavingsModel>,
    n: nat,
)
    ensures
        all_batch_lines(before, after, n).len() == 0 <==> forall|i: int|
            0 <= i < n ==> {
                let a = #[trigger] before[i];
                let b = after[i];
                a.divergent.len() == b.divergent.len() && a.exhaustive == b.exhaustive
            },
    decreases n,
{
    if n > 0 {
        lemma_batch_lines(before, after, (n - 1) as nat);
        let a = before[n - 1];
        let b = after[n - 1];
        assert(batch_lines(a, b).len() == 0 <==> a.divergent.len() == b.divergent.len()
            && a.exhaustive == b.exhaustive);
    }
}

proof fn lemma_coverage_lines(before: CoverageModel, after: CoverageModel)
    ensures
        coverage_lines(before, after).len() == 0 <==> {
            &&& before.singles_checked == after.singles_checked
            &&& before.pairs_checked == after.pairs_checked
            &&& before.singles_exhaustive == after.singles_exhaustive
            &&& before.pairs_exhaustive == after.pairs_exhaustive
            &&& before.failures.len() == after.failures.len()
        },
{
}

proof fn lemma_subject_lines(before: CertificateModel, after: CertificateModel)
    ensures
        subject_lines(before, after).len() == 0 <==> {
            &&& before.trace == after.trace
            &&& before.verdict == after.verdict
            &&& before.invariants == after.invariants
        },
{
}

proof fn lemma_listed(before: CertificateModel, after: CertificateModel)
    ensures
        listed_changes(before, after).len() == 0 <==> holds_up(before, after),
{
    let n = if before.interleavings.len() <= after.interleavings.len() {
        before.interleavings.len()
    } else {
        after.interleavings.len()
    };
    let batches = all_batch_lines(before.interleavings, after.interleavings, n);
    let coverage = coverage_lines(before.coverage, after.coverage);
    let subject = subject_lines(before, after);
    let count = count_line(
        "concurrent batches "@,
        before.interleavings.len(),
        after.interleavings.len(),
    );
    lemma_subject_lines(before, after);
    lemma_coverage_lines(before.coverage, after.coverage);
    lemma_batch_lines(before.interleavings, after.interleavings, n);
    assert(listed_changes(before, after).len() == subject.len() + coverage.len() + batches.len()
        + count.len());
    assert(count.len() == 0 <==> before.interleavings.len() == after.interleavings.len());
}

/// What was checked and what came of it is listed wherever it differs, in either
/// direction: coverage that shrinks is reported though the verdict stays, and so
/// is coverage that grows.
pub proof fn lemma_coverage_compared(before: CertificateModel, after: CertificateModel)
    ensures
        listed_changes(before, after).len() == 0 <==> holds_up(before, after),
        listed_changes(before, after).len() == 0 <==> listed_changes(after, before).len() == 0,
{
    lemma_listed(before, after);
    lemma_listed(after, before);
    if holds_up(before, after) {
        assert forall|i: int| 0 <= i < before.interleavings.len() implies {
            let a = #[trigger] after.interleavings[i];
            let b = before.interleavings[i];
            a.divergent.len() == b.divergent.len() && a.exhaustive == b.exhaustive
        } by {
            let a = before.interleavings[i];
        }
        assert(holds_up(after, before));
    }
    if holds_up(after, before) {
        assert forall|i: int| 0 <= i < after.interleavings.len() implies {
            let a = #[trigger] before.interleavings[i];
            let b = after.interleavings[i];
            a.divergent.len() == b.divergent.len() && a.exhaustive == b.exhaustive
        } by {
            let a = after.interleavings[i];
        }
        assert(holds_up(before, after));
    }
}

/// Any difference is reported: nothing is exactly where two certificates are the
/// same.
pub proof fn lemma_changes_complete(before: CertificateModel, after: CertificateModel)
    ensures
        changes(before, after).len() == 0 <==> before == after,
{
    lemma_coverage_compared(before, after);
}

/// A certificate does not differ from itself.
pub proof fn lemma_same_certificate(c: CertificateModel)
    ensures
        changes(c, c) == Seq::<Seq<char>>::empty(),
{
    lemma_changes_complete(c, c);
}

/// Adds a line.
fn push_line(out: &mut Vec<String>, line: String)
    ensures
        texts(final(out)@) == texts(old(out)@) + seq![line@],
{
    let ghost before = out@;
    out.push(line);
    assert(texts(out@) =~= texts(before) + seq![line@]);
}

/// Adds a line about something that was one way and is another.
fn push_moved(out: &mut Vec<String>, differs: bool, what: &str, before: &str, after: &str)
    ensures
        texts(final(out)@) == texts(old(out)@) + moved_line(differs, what@, before@, after@),
{
    if differs {
        let mut line = what.to_owned();
        line.append(before);
        line.append(" \u{2192} ");
        line.append(after);
        push_line(out, line);
    } else {
        assert(texts(out@) + moved_line(differs, what@, before@, after@) =~= texts(out@));
    }
}

/// Adds a line about a count that was one and is another.
fn push_count(out: &mut Vec<String>, what: &str, before: usize, after: usize)
    ensures
        texts(final(out)@) == texts(old(out)@) + count_line(what@, before as nat, after as nat),
{
    push_moved(
        out,
        before != after,
        what,
        show_size(before).as_str(),
        show_size(after).as_str(),
    );
}

/// Adds a line, where something holds.
fn push_if(out: &mut Vec<String>, holds: bool, line: &str)
    ensures
        texts(final(out)@) == texts(old(out)@) + line_if(holds, line@),
{
    if holds {
        push_line(out, line.to_owned());
    } else {
        assert(texts(out@) + line_if(holds, line@) =~= texts(out@));
    }
}

/// Adds a line about a sweep that was complete and is not any more, or the other
/// way round.
fn push_flip(out: &mut Vec<String>, before: bool, after: bool, lost: &str, gained: &str)
    ensures
        texts(final(out)@) == texts(old(out)@) + flip_line(before, after, lost@, gained@),
{
    push_if(
        out,
        before != after,
        if before {
            lost
        } else {
            gained
        },
    );
}

/// The texts of a list, as they are shown to a programmer.
fn quote_list(list: &Vec<String>) -> (r: String)
    ensures
        r@ == quoted_list(texts(list@)),
{
    let mut parts: Vec<String> = Vec::new();
    let mut i: usize = 0;
    while i < list.len()
        invariant
            i <= list@.len(),
            parts@.len() == i,
            forall|k: int| 0 <= k < i ==> (#[trigger] parts@[k])@ == quoted(list@[k]@),
        decreases list@.len() - i,
    {
        parts.push(quote(list[i].as_str()));
        i += 1;
    }
    assert(texts(parts@) =~= Seq::new(texts(list@).len(), |k: int| quoted(texts(list@)[k])));
    let mut out = "[".to_owned();
    out.append(join(&parts, ", ").as_str());
    out.append("]");
    out
}

/// A list of texts as it is shown to a programmer.
pub open spec fn quoted_list(list: Seq<Seq<char>>) -> Seq<char> {
    "["@ + joined(Seq::new(list.len(), |i: int| quoted(list[i])), ", "@) + "]"@
}

impl Verdict {
    /// This verdict's name.
    pub fn name(&self) -> (r: &'static str)
        ensures
            r@ == verdict_name(*self),
    {
        match self {
            Verdict::Clean => "Clean",
            Verdict::Broken => "Broken",
        }
    }
}

impl Certificate {
    /// Adds how what this certificate is about differs from an earlier one.
    fn compare_subject(&self, previous: &Certificate, out: &mut Vec<String>)
        requires
            previous@.trace != self@.trace ==> has_short(previous@.trace) && has_short(self@.trace),
        ensures
            texts(final(out)@) == texts(old(out)@) + subject_lines(previous@, self@),
    {
        let ghost start = texts(out@);
        let ghost first = line_if(
            previous@.trace != self@.trace,
            "different run: certificate is for trace "@ + short_of(previous@.trace)
                + ", this is "@ + short_of(self@.trace),
        );
        if !previous.trace.same(&self.trace) {
            let mut line = "different run: certificate is for trace ".to_owned();
            line.append(previous.trace.short());
            line.append(", this is ");
            line.append(self.trace.short());
            push_line(out, line);
        } else {
            assert(start + first =~= start);
        }
        assert(texts(out@) == start + first);
        push_moved(
            out,
            previous.verdict != self.verdict,
            "verdict changed: ",
            previous.verdict.name(),
            self.verdict.name(),
        );
        let ghost second = texts(out@);
        push_moved(
            out,
            !same_list(&previous.invariants, &self.invariants),
            "invariants changed: ",
            quote_list(&previous.invariants).as_str(),
            quote_list(&self.invariants).as_str(),
        );
        assert(texts(out@) =~= start + subject_lines(previous@, self@));
    }

    /// Adds how the coverage differs from an earlier one.
    #[verifier::spinoff_prover]
    #[verifier::rlimit(40)]
    fn compare_coverage(&self, previous: &Certificate, out: &mut Vec<String>)
        ensures
            texts(final(out)@) == texts(old(out)@) + coverage_lines(
                previous@.coverage,
                self@.coverage,
            ),
    {
        let ghost start = texts(out@);
        let a = &previous.coverage;
        let b = &self.coverage;
        push_count(out, "single-fault coverage ", a.singles_checked, b.singles_checked);
        push_count(out, "pair coverage ", a.pairs_checked, b.pairs_checked);
        push_flip(
            out,
            a.singles_exhaustive,
            b.singles_exhaustive,
            "single-fault sweep is no longer exhaustive",
            "single-fault sweep is now exhaustive",
        );
        push_flip(
            out,
            a.pairs_exhaustive,
            b.pairs_exhaustive,
            "pair sweep is no longer exhaustive",
            "pair sweep is now exhaustive",
        );
        push_count(out, "failing schedules ", a.failures.len(), b.failures.len());
        assert(texts(out@) =~= start + coverage_lines(previous@.coverage, self@.coverage));
    }

    /// Whether this is the same certificate: the text of one gives it back.
    fn is_same(&self, other: &Certificate) -> (r: bool)
        ensures
            r == (self@ == other@),
    {
        same(self.to_json().as_str(), other.to_json().as_str())
    }

    /// How what was checked differs from an earlier certificate.
    fn compare_checks(&self, previous: &Certificate) -> (r: Vec<String>)
        requires
            previous@.trace != self@.trace ==> has_short(previous@.trace) && has_short(self@.trace),
        ensures
            texts(r@) == listed_changes(previous@, self@),
    {
        let mut out: Vec<String> = Vec::new();
        let ghost none = texts(out@);
        assert(none =~= seq![]);
        self.compare_subject(previous, &mut out);
        self.compare_coverage(previous, &mut out);
        let ghost head = texts(out@);
        let ghost old_batches = previous@.interleavings;
        let ghost new_batches = self@.interleavings;
        let n: usize = if previous.interleavings.len() <= self.interleavings.len() {
            previous.interleavings.len()
        } else {
            self.interleavings.len()
        };
        assert(head + all_batch_lines(old_batches, new_batches, 0) =~= head);
        let mut i: usize = 0;
        while i < n
            invariant
                i <= n,
                n <= previous.interleavings@.len(),
                n <= self.interleavings@.len(),
                old_batches == previous@.interleavings,
                new_batches == self@.interleavings,
                texts(out@) == head + all_batch_lines(old_batches, new_batches, i as nat),
            decreases n - i,
        {
            let ghost sofar = texts(out@);
            let before = &previous.interleavings[i];
            let after = &self.interleavings[i];
            assert(old_batches[i as int] == before@);
            assert(new_batches[i as int] == after@);
            let mut head_text = "batch #".to_owned();
            head_text.append(show(after.batch).as_str());
            let mut what = head_text.as_str().to_owned();
            what.append(": divergent orderings ");
            push_count(&mut out, what.as_str(), before.divergent.len(), after.divergent.len());
            let mut lost = head_text.as_str().to_owned();
            lost.append(": no longer checked exhaustively");
            let mut gained = head_text;
            gained.append(": now checked exhaustively");
            push_flip(
                &mut out,
                before.exhaustive,
                after.exhaustive,
                lost.as_str(),
                gained.as_str(),
            );
            assert(texts(out@) =~= sofar + batch_lines(before@, after@));
            assert(texts(out@) =~= head + all_batch_lines(
                old_batches,
                new_batches,
                (i + 1) as nat,
            ));
            i += 1;
        }
        push_count(
            &mut out,
            "concurrent batches ",
            previous.interleavings.len(),
            self.interleavings.len(),
        );
        assert(texts(out@) =~= listed_changes(previous@, self@));
        out
    }

    /// How this certificate differs from an earlier one, in either direction.
    ///
    /// A regression is obvious. The subtler case is coverage that quietly
    /// shrinks while the verdict stays, which is why counts are compared.
    pub fn differences(&self, previous: &Certificate) -> (r: Vec<String>)
        requires
            previous@.trace != self@.trace ==> has_short(previous@.trace) && has_short(self@.trace),
        ensures
            texts(r@) == changes(previous@, self@),
            r@.len() == 0 <==> previous@ == self@,
    {
        let mut out = self.compare_checks(previous);
        assert(texts(out@).len() == out@.len());
        let unlisted = out.len() == 0 && !self.is_same(previous);
        push_if(&mut out, unlisted, "same coverage, but the certificates are not the same");
        proof {
            lemma_changes_complete(previous@, self@);
            assert(texts(out@).len() == out@.len());
        }
        out
    }
}

} // verus!
