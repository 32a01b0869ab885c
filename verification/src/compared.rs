//! Certificates on paper: the names that their fields go under, what is told of
//! two that differ, and how a sweep is reported.

use crate::certificate::{
    all_batch_lines, batch_lines, case_json, certificate_json, changes, count_line, coverage_json,
    coverage_lines, flip_line, line_if, listed_changes, moved_line, quoted_list, report_json,
    subject_lines, verdict_name, violation_json, violations_json, CertificateModel, Verdict,
};
use crate::coverage::{coverage_claim, CaseModel, CoverageModel};
use crate::hash::short_of;
use crate::invariants::{violation_report, ViolationModel};
use crate::json::{get, JsonModel, NumberModel};
use crate::offscript::mentions;
use crate::orderings::{order_claim, InterleavingsModel};
use crate::record::{lemma_lookup_put, schedule_json};
use crate::report::{
    case_lines, dependent_lines, failing_lines, meaning_lines, order_line, space_lines,
    sweep_lines, LineModel,
};
use crate::text::decimal;
use crate::ui::{painted, printed_line};
use vstd::prelude::*;

verus! {

// ---------------------------------------------------------------------------
// The written form
// ---------------------------------------------------------------------------

/// A whole number as a document.
pub open spec fn digits(n: nat) -> JsonModel {
    JsonModel::Number(NumberModel::Unsigned(n as u64))
}

/// A text by its length and the letter that it begins with.
spec fn cast(key: Seq<char>) -> int {
    key.len() * 0x100_0000 + key[0] as int
}

/// The fields of a written violation; one of no particular effect has none.
pub proof fn lemma_violation_written(v: ViolationModel)
    ensures
        get(violation_json(v), "invariant"@) == Some(JsonModel::Text(v.invariant)),
        get(violation_json(v), "detail"@) == Some(JsonModel::Text(v.detail)),
        get(violation_json(v), "at_seq"@) == Some(
            match v.at_seq {
                Some(n) => digits(n as nat),
                None => JsonModel::Null,
            },
        ),
{
    broadcast use lemma_lookup_put;

    reveal_strlit("invariant");
    reveal_strlit("detail");
    reveal_strlit("at_seq");
    assert("invariant"@[0] == 'i' && "detail"@[0] == 'd' && "at_seq"@[0] == 'a');
}

/// The fields of a written case: its schedule, that in words, and what broke.
pub proof fn lemma_case_written(c: CaseModel)
    ensures
        get(case_json(c), "schedule"@) == Some(schedule_json(c.schedule)),
        get(case_json(c), "description"@) == Some(JsonModel::Text(c.description)),
        get(case_json(c), "violations"@) == Some(violations_json(c.violations)),
{
    broadcast use lemma_lookup_put;

    reveal_strlit("schedule");
    reveal_strlit("description");
    reveal_strlit("violations");
    assert("schedule"@[0] == 's' && "description"@[0] == 'd' && "violations"@[0] == 'v');
}

proof fn lemma_coverage_keys()
    ensures
        cast("positions"@) == 9 * 0x100_0000 + 'p' as int,
        cast("kinds"@) == 5 * 0x100_0000 + 'k' as int,
        cast("singles_checked"@) == 15 * 0x100_0000 + 's' as int,
        cast("singles_exhaustive"@) == 18 * 0x100_0000 + 's' as int,
        cast("pairs_checked"@) == 13 * 0x100_0000 + 'p' as int,
        cast("pairs_exhaustive"@) == 16 * 0x100_0000 + 'p' as int,
        cast("replays"@) == 7 * 0x100_0000 + 'r' as int,
        cast("failures"@) == 8 * 0x100_0000 + 'f' as int,
{
    reveal_strlit("positions");
    reveal_strlit("kinds");
    reveal_strlit("singles_checked");
    reveal_strlit("singles_exhaustive");
    reveal_strlit("pairs_checked");
    reveal_strlit("pairs_exhaustive");
    reveal_strlit("replays");
    reveal_strlit("failures");
}

/// The fields of a written coverage.
pub proof fn lemma_coverage_written(c: CoverageModel)
    ensures
        ({
            let m = coverage_json(c);
            &&& get(m, "positions"@) == Some(digits(c.positions as nat))
            &&& get(m, "kinds"@) == Some(digits(c.kinds as nat))
            &&& get(m, "singles_checked"@) == Some(digits(c.singles_checked as nat))
            &&& get(m, "singles_exhaustive"@) == Some(JsonModel::Bool(c.singles_exhaustive))
            &&& get(m, "pairs_checked"@) == Some(digits(c.pairs_checked as nat))
            &&& get(m, "pairs_exhaustive"@) == Some(JsonModel::Bool(c.pairs_exhaustive))
            &&& get(m, "replays"@) == Some(digits(c.replays as nat))
            &&& get(m, "failures"@) == Some(
                JsonModel::Array(Seq::new(c.failures.len(), |i: int| case_json(c.failures[i]))),
            )
        }),
{
    broadcast use lemma_lookup_put;

    lemma_coverage_keys();
}

proof fn lemma_report_keys()
    ensures
        cast("batch"@) == 5 * 0x100_0000 + 'b' as int,
        cast("width"@) == 5 * 0x100_0000 + 'w' as int,
        cast("total"@) == 5 * 0x100_0000 + 't' as int,
        cast("checked"@) == 7 * 0x100_0000 + 'c' as int,
        cast("exhaustive"@) == 10 * 0x100_0000 + 'e' as int,
        cast("divergent"@) == 9 * 0x100_0000 + 'd' as int,
        cast("commuting_pairs"@) == 15 * 0x100_0000 + 'c' as int,
        cast("adjacent_pairs"@) == 14 * 0x100_0000 + 'a' as int,
        cast("replays"@) == 7 * 0x100_0000 + 'r' as int,
{
    reveal_strlit("batch");
    reveal_strlit("width");
    reveal_strlit("total");
    reveal_strlit("checked");
    reveal_strlit("exhaustive");
    reveal_strlit("divergent");
    reveal_strlit("commuting_pairs");
    reveal_strlit("adjacent_pairs");
    reveal_strlit("replays");
}

/// The fields of a written report on the orders of a batch.
pub proof fn lemma_report_written(i: InterleavingsModel)
    ensures
        ({
            let m = report_json(i);
            &&& get(m, "batch"@) == Some(digits(i.batch as nat))
            &&& get(m, "width"@) == Some(digits(i.width as nat))
            &&& get(m, "total"@) == Some(digits(i.total as nat))
            &&& get(m, "checked"@) == Some(digits(i.checked as nat))
            &&& get(m, "exhaustive"@) == Some(JsonModel::Bool(i.exhaustive))
            &&& get(m, "commuting_pairs"@) == Some(digits(i.commuting_pairs as nat))
            &&& get(m, "adjacent_pairs"@) == Some(digits(i.adjacent_pairs as nat))
            &&& get(m, "replays"@) == Some(digits(i.replays as nat))
            &&& get(m, "divergent"@) is Some
        }),
{
    broadcast use lemma_lookup_put;

    lemma_report_keys();
}

proof fn lemma_certificate_keys()
    ensures
        cast("version"@) == 7 * 0x100_0000 + 'v' as int,
        cast("engine"@) == 6 * 0x100_0000 + 'e' as int,
        cast("trace"@) == 5 * 0x100_0000 + 't' as int,
        cast("label"@) == 5 * 0x100_0000 + 'l' as int,
        cast("invariants"@) == 10 * 0x100_0000 + 'i' as int,
        cast("coverage"@) == 8 * 0x100_0000 + 'c' as int,
        cast("interleavings"@) == 13 * 0x100_0000 + 'i' as int,
        cast("verdict"@) == 7 * 0x100_0000 + 'v' as int,
        cast("claims"@) == 6 * 0x100_0000 + 'c' as int,
        "version"@ != "verdict"@,
{
    reveal_strlit("version");
    reveal_strlit("engine");
    reveal_strlit("trace");
    reveal_strlit("label");
    reveal_strlit("invariants");
    reveal_strlit("coverage");
    reveal_strlit("interleavings");
    reveal_strlit("verdict");
    reveal_strlit("claims");
    assert("version"@[3] == 's' && "verdict"@[3] == 'd');
}

/// The fields of a written certificate. Its verdict is one of two words.
pub proof fn lemma_certificate_written(c: CertificateModel)
    ensures
        ({
            let m = certificate_json(c);
            &&& get(m, "version"@) == Some(digits(c.version as nat))
            &&& get(m, "engine"@) == Some(JsonModel::Text(c.engine))
            &&& get(m, "trace"@) == Some(JsonModel::Text(c.trace))
            &&& get(m, "label"@) == Some(JsonModel::Text(c.label))
            &&& get(m, "invariants"@) == Some(
                JsonModel::Array(
                    Seq::new(c.invariants.len(), |i: int| JsonModel::Text(c.invariants[i])),
                ),
            )
            &&& get(m, "coverage"@) == Some(coverage_json(c.coverage))
            &&& get(m, "interleavings"@) == Some(
                JsonModel::Array(
                    Seq::new(c.interleavings.len(), |i: int| report_json(c.interleavings[i])),
                ),
            )
            &&& c.verdict is Clean ==> get(m, "verdict"@) == Some(JsonModel::Text("clean"@))
            &&& c.verdict is Broken ==> get(m, "verdict"@) == Some(JsonModel::Text("broken"@))
            &&& get(m, "claims"@) == Some(
                JsonModel::Array(Seq::new(c.claims.len(), |i: int| JsonModel::Text(c.claims[i]))),
            )
        }),
{
    broadcast use lemma_lookup_put;

    lemma_certificate_keys();
}

// ---------------------------------------------------------------------------
// What is told of two certificates
// ---------------------------------------------------------------------------

/// Whether one of these lines names both.
pub open spec fn tell(lines: Seq<Seq<char>>, a: Seq<char>, b: Seq<char>) -> bool {
    exists|i: int|
        0 <= i < lines.len() && mentions(#[trigger] lines[i], a) && mentions(lines[i], b)
}

proof fn lemma_tell_on(x: Seq<Seq<char>>, y: Seq<Seq<char>>, a: Seq<char>, b: Seq<char>)
    ensures
        tell(x, a, b) ==> tell(x + y, a, b),
        tell(y, a, b) ==> tell(x + y, a, b),
{
    if tell(x, a, b) {
        let i = choose|i: int|
            0 <= i < x.len() && mentions(#[trigger] x[i], a) && mentions(x[i], b);
        assert((x + y)[i] == x[i]);
    }
    if tell(y, a, b) {
        let i = choose|i: int|
            0 <= i < y.len() && mentions(#[trigger] y[i], a) && mentions(y[i], b);
        assert((x + y)[x.len() + i] == y[i]);
    }
}

proof fn lemma_moved_tells(what: Seq<char>, a: Seq<char>, b: Seq<char>)
    ensures
        tell(moved_line(true, what, a, b), a, b),
{
    let line = what + a + " \u{2192} "@ + b;
    assert(line =~= (what + a) + (" \u{2192} "@ + b));
    assert(line =~= ((what + a + " \u{2192} "@) + b) + Seq::<char>::empty());
    assert(moved_line(true, what, a, b)[0] == line);
}

proof fn lemma_line_tells(line: Seq<char>)
    ensures
        tell(line_if(true, line), line, line),
{
    assert(line =~= (Seq::<char>::empty() + line) + Seq::<char>::empty());
    assert(line_if(true, line)[0] == line);
}

proof fn lemma_subject_told(before: CertificateModel, after: CertificateModel)
    ensures
        before.trace != after.trace ==> tell(
            subject_lines(before, after),
            short_of(before.trace),
            short_of(after.trace),
        ),
        before.verdict != after.verdict ==> tell(
            subject_lines(before, after),
            verdict_name(before.verdict),
            verdict_name(after.verdict),
        ),
        before.invariants != after.invariants ==> tell(
            subject_lines(before, after),
            quoted_list(before.invariants),
            quoted_list(after.invariants),
        ),
{
    let x = short_of(before.trace);
    let y = short_of(after.trace);
    let head = "different run: certificate is for trace "@;
    let line = head + x + ", this is "@ + y;
    let first = line_if(before.trace != after.trace, line);
    let u = verdict_name(before.verdict);
    let v = verdict_name(after.verdict);
    let second = moved_line(before.verdict != after.verdict, "verdict changed: "@, u, v);
    let p = quoted_list(before.invariants);
    let q = quoted_list(after.invariants);
    let third = moved_line(before.invariants != after.invariants, "invariants changed: "@, p, q);
    assert(subject_lines(before, after) == first + second + third);
    if before.trace != after.trace {
        assert(line =~= (head + x) + (", this is "@ + y));
        assert(line =~= ((head + x + ", this is "@) + y) + Seq::<char>::empty());
        assert(first[0] == line);
        lemma_tell_on(first, second, x, y);
        lemma_tell_on(first + second, third, x, y);
    }
    if before.verdict != after.verdict {
        lemma_moved_tells("verdict changed: "@, u, v);
        lemma_tell_on(first, second, u, v);
        lemma_tell_on(first + second, third, u, v);
    }
    if before.invariants != after.invariants {
        lemma_moved_tells("invariants changed: "@, p, q);
        lemma_tell_on(first + second, third, p, q);
    }
}

proof fn lemma_coverage_told(before: CoverageModel, after: CoverageModel)
    ensures
        before.singles_checked != after.singles_checked ==> tell(
            coverage_lines(before, after),
            decimal(before.singles_checked as nat),
            decimal(after.singles_checked as nat),
        ),
        before.pairs_checked != after.pairs_checked ==> tell(
            coverage_lines(before, after),
            decimal(before.pairs_checked as nat),
            decimal(after.pairs_checked as nat),
        ),
        before.failures.len() != after.failures.len() ==> tell(
            coverage_lines(before, after),
            decimal(before.failures.len()),
            decimal(after.failures.len()),
        ),
        before.singles_exhaustive && !after.singles_exhaustive ==> tell(
            coverage_lines(before, after),
            "single-fault sweep is no longer exhaustive"@,
            "single-fault sweep is no longer exhaustive"@,
        ),
        before.pairs_exhaustive && !after.pairs_exhaustive ==> tell(
            coverage_lines(before, after),
            "pair sweep is no longer exhaustive"@,
            "pair sweep is no longer exhaustive"@,
        ),
{
    let a1 = decimal(before.singles_checked as nat);
    let b1 = decimal(after.singles_checked as nat);
    let a2 = decimal(before.pairs_checked as nat);
    let b2 = decimal(after.pairs_checked as nat);
    let a3 = decimal(before.failures.len());
    let b3 = decimal(after.failures.len());
    let w1 = "single-fault sweep is no longer exhaustive"@;
    let w2 = "pair sweep is no longer exhaustive"@;
    let l1 = count_line(
        "single-fault coverage "@,
        before.singles_checked as nat,
        after.singles_checked as nat,
    );
    let l2 = count_line(
        "pair coverage "@,
        before.pairs_checked as nat,
        after.pairs_checked as nat,
    );
    let l3 = flip_line(
        before.singles_exhaustive,
        after.singles_exhaustive,
        w1,
        "single-fault sweep is now exhaustive"@,
    );
    let l4 = flip_line(
        before.pairs_exhaustive,
        after.pairs_exhaustive,
        w2,
        "pair sweep is now exhaustive"@,
    );
    let l5 = count_line("failing schedules "@, before.failures.len(), after.failures.len());
    let all = l1 + l2 + l3 + l4 + l5;
    assert(coverage_lines(before, after) == all);
    if before.singles_checked != after.singles_checked {
        lemma_moved_tells("single-fault coverage "@, a1, b1);
        lemma_tell_on(l1, l2, a1, b1);
        lemma_tell_on(l1 + l2, l3, a1, b1);
        lemma_tell_on(l1 + l2 + l3, l4, a1, b1);
        lemma_tell_on(l1 + l2 + l3 + l4, l5, a1, b1);
    }
    if before.pairs_checked != after.pairs_checked {
        lemma_moved_tells("pair coverage "@, a2, b2);
        lemma_tell_on(l1, l2, a2, b2);
        lemma_tell_on(l1 + l2, l3, a2, b2);
        lemma_tell_on(l1 + l2 + l3, l4, a2, b2);
        lemma_tell_on(l1 + l2 + l3 + l4, l5, a2, b2);
    }
    if before.failures.len() != after.failures.len() {
        lemma_moved_tells("failing schedules "@, a3, b3);
        lemma_tell_on(l1 + l2 + l3 + l4, l5, a3, b3);
    }
    if before.singles_exhaustive && !after.singles_exhaustive {
        lemma_line_tells(w1);
        lemma_tell_on(l1 + l2, l3, w1, w1);
        lemma_tell_on(l1 + l2 + l3, l4, w1, w1);
        lemma_tell_on(l1 + l2 + l3 + l4, l5, w1, w1);
    }
    if before.pairs_exhaustive && !after.pairs_exhaustive {
        lemma_line_tells(w2);
        lemma_tell_on(l1 + l2 + l3, l4, w2, w2);
        lemma_tell_on(l1 + l2 + l3 + l4, l5, w2, w2);
    }
}

proof fn lemma_batches_told(a: Seq<InterleavingsModel>, b: Seq<InterleavingsModel>, n: nat, k: int)
    requires
        0 <= k < n,
        a[k].divergent.len() != b[k].divergent.len(),
    ensures
        tell(
            all_batch_lines(a, b, n),
            decimal(a[k].divergent.len()),
            decimal(b[k].divergent.len()),
        ),
    decreases n,
{
    let x = decimal(a[k].divergent.len());
    let y = decimal(b[k].divergent.len());
    let before = all_batch_lines(a, b, (n - 1) as nat);
    let last = batch_lines(a[n - 1], b[n - 1]);
    if k < n - 1 {
        lemma_batches_told(a, b, (n - 1) as nat, k);
        lemma_tell_on(before, last, x, y);
    } else {
        let head = "batch #"@ + decimal(b[k].batch as nat);
        let what = head + ": divergent orderings "@;
        lemma_moved_tells(what, x, y);
        let first = count_line(what, a[k].divergent.len(), b[k].divergent.len());
        let second = flip_line(
            a[k].exhaustive,
            b[k].exhaustive,
            head + ": no longer checked exhaustively"@,
            head + ": now checked exhaustively"@,
        );
        lemma_tell_on(first, second, x, y);
        lemma_tell_on(before, last, x, y);
    }
}

/// Two certificates that differ are told apart by what differs: the runs, the
/// verdicts, the properties, what was checked, what failed, what is no longer
/// exhaustive, and the orders that change what the agent does, each before and
/// after.
pub proof fn lemma_changes_told(before: CertificateModel, after: CertificateModel, k: int)
    ensures
        ({
            let lines = changes(before, after);
            let old_cover = before.coverage;
            let cover = after.coverage;
            let a = before.interleavings;
            let b = after.interleavings;
            &&& before.trace != after.trace ==> tell(
                lines,
                short_of(before.trace),
                short_of(after.trace),
            )
            &&& before.verdict != after.verdict ==> tell(
                lines,
                verdict_name(before.verdict),
                verdict_name(after.verdict),
            )
            &&& before.invariants != after.invariants ==> tell(
                lines,
                quoted_list(before.invariants),
                quoted_list(after.invariants),
            )
            &&& old_cover.singles_checked != cover.singles_checked ==> tell(
                lines,
                decimal(old_cover.singles_checked as nat),
                decimal(cover.singles_checked as nat),
            )
            &&& old_cover.pairs_checked != cover.pairs_checked ==> tell(
                lines,
                decimal(old_cover.pairs_checked as nat),
                decimal(cover.pairs_checked as nat),
            )
            &&& old_cover.failures.len() != cover.failures.len() ==> tell(
                lines,
                decimal(old_cover.failures.len()),
                decimal(cover.failures.len()),
            )
            &&& old_cover.singles_exhaustive && !cover.singles_exhaustive ==> tell(
                lines,
                "single-fault sweep is no longer exhaustive"@,
                "single-fault sweep is no longer exhaustive"@,
            )
            &&& old_cover.pairs_exhaustive && !cover.pairs_exhaustive ==> tell(
                lines,
                "pair sweep is no longer exhaustive"@,
                "pair sweep is no longer exhaustive"@,
            )
            &&& a.len() != b.len() ==> tell(lines, decimal(a.len()), decimal(b.len()))
            &&& 0 <= k < a.len() && k < b.len() && a[k].divergent.len() != b[k].divergent.len()
                ==> tell(lines, decimal(a[k].divergent.len()), decimal(b[k].divergent.len()))
        }),
{
    let a = before.interleavings;
    let b = after.interleavings;
    let n = if a.len() <= b.len() {
        a.len()
    } else {
        b.len()
    };
    let l1 = subject_lines(before, after);
    let l2 = coverage_lines(before.coverage, after.coverage);
    let l3 = all_batch_lines(a, b, n);
    let l4 = count_line("concurrent batches "@, a.len(), b.len());
    assert(listed_changes(before, after) == l1 + l2 + l3 + l4);
    let l5 = line_if(
        listed_changes(before, after).len() == 0 && before != after,
        "same coverage, but the certificates are not the same"@,
    );
    assert(changes(before, after) == l1 + l2 + l3 + l4 + l5);
    lemma_subject_told(before, after);
    lemma_coverage_told(before.coverage, after.coverage);
    assert forall|x: Seq<char>, y: Seq<char>| #[trigger] tell(l1, x, y) implies tell(
        l1 + l2 + l3 + l4 + l5,
        x,
        y,
    ) by {
        lemma_tell_on(l1, l2, x, y);
        lemma_tell_on(l1 + l2, l3, x, y);
        lemma_tell_on(l1 + l2 + l3, l4, x, y);
        lemma_tell_on(l1 + l2 + l3 + l4, l5, x, y);
    }
    assert forall|x: Seq<char>, y: Seq<char>| #[trigger] tell(l2, x, y) implies tell(
        l1 + l2 + l3 + l4 + l5,
        x,
        y,
    ) by {
        lemma_tell_on(l1, l2, x, y);
        lemma_tell_on(l1 + l2, l3, x, y);
        lemma_tell_on(l1 + l2 + l3, l4, x, y);
        lemma_tell_on(l1 + l2 + l3 + l4, l5, x, y);
    }
    if a.len() != b.len() {
        lemma_moved_tells("concurrent batches "@, decimal(a.len()), decimal(b.len()));
        lemma_tell_on(l1 + l2 + l3, l4, decimal(a.len()), decimal(b.len()));
        lemma_tell_on(l1 + l2 + l3 + l4, l5, decimal(a.len()), decimal(b.len()));
    }
    if 0 <= k < a.len() && k < b.len() && a[k].divergent.len() != b[k].divergent.len() {
        let x = decimal(a[k].divergent.len());
        let y = decimal(b[k].divergent.len());
        lemma_batches_told(a, b, n, k);
        lemma_tell_on(l1 + l2, l3, x, y);
        lemma_tell_on(l1 + l2 + l3, l4, x, y);
        lemma_tell_on(l1 + l2 + l3 + l4, l5, x, y);
    }
}

/// The two verdicts have different names.
pub proof fn lemma_verdicts_named(a: Verdict, b: Verdict)
    ensures
        a != b ==> verdict_name(a) != verdict_name(b),
        verdict_name(Verdict::Clean) == "Clean"@,
{
    reveal_strlit("Clean");
    reveal_strlit("Broken");
    assert("Clean"@.len() == 5 && "Broken"@.len() == 6);
}

// ---------------------------------------------------------------------------
// A sweep on a terminal
// ---------------------------------------------------------------------------

/// What a sweep means is told in its claims: the one on faults is good news
/// exactly where none failed, and the one on each batch exactly where no order
/// changed anything.
pub proof fn lemma_meaning_told(c: CertificateModel, k: int)
    requires
        0 <= k < c.interleavings.len(),
    ensures
        meaning_lines(c).len() == c.interleavings.len() + 2,
        c.coverage.failures.len() == 0 ==> meaning_lines(c)[1] == (LineModel::Good {
            text: coverage_claim(c.coverage),
        }),
        c.coverage.failures.len() > 0 ==> meaning_lines(c)[1] == (LineModel::Bad {
            text: coverage_claim(c.coverage),
        }),
        c.interleavings[k].divergent.len() == 0 ==> meaning_lines(c)[k + 2] == (LineModel::Good {
            text: order_claim(c.interleavings[k]),
        }),
        c.interleavings[k].divergent.len() > 0 ==> meaning_lines(c)[k + 2] == (LineModel::Bad {
            text: order_claim(c.interleavings[k]),
        }),
{
}

proof fn lemma_case_first(cases: Seq<CaseModel>, n: nat, k: int)
    requires
        0 <= k < n <= cases.len(),
    ensures
        case_lines(cases, n).contains(LineModel::Faults { text: cases[k].description }),
        forall|i: int|
            0 <= i < cases[k].violations.len() ==> case_lines(cases, n).contains(
                #[trigger] told_breach(cases[k].violations[i]),
            ),
    decreases n,
{
    let before = case_lines(cases, (n - 1) as nat);
    let one = seq![LineModel::Faults { text: cases[n - 1].description }];
    let broke = crate::report::broke_lines(cases[n - 1].violations);
    let all = case_lines(cases, n);
    assert(all == before + one + broke);
    if k < n - 1 {
        lemma_case_first(cases, (n - 1) as nat, k);
        assert forall|x: LineModel| before.contains(x) implies all.contains(x) by {
            let i = choose|i: int| 0 <= i < before.len() && before[i] == x;
            assert(all[i] == x);
        }
    } else {
        assert(all[before.len() as int] == one[0]);
        assert forall|i: int| 0 <= i < cases[k].violations.len() implies all.contains(
            #[trigger] told_breach(cases[k].violations[i]),
        ) by {
            assert(all[before.len() + 1 + i] == broke[i]);
        }
    }
}

/// A violation as a line under its schedule.
pub open spec fn told_breach(v: ViolationModel) -> LineModel {
    LineModel::Broke { text: violation_report(v) }
}

/// Nothing is listed as failing where nothing failed. Else the first eight
/// schedules that failed are listed, each with all that broke, and the others are
/// counted.
pub proof fn lemma_failing_listed(cases: Seq<CaseModel>, k: int)
    ensures
        cases.len() == 0 ==> failing_lines(cases).len() == 0,
        0 <= k < cases.len() && k < 8 ==> {
            &&& failing_lines(cases).contains(LineModel::Faults { text: cases[k].description })
            &&& forall|i: int|
                0 <= i < cases[k].violations.len() ==> failing_lines(cases).contains(
                    #[trigger] told_breach(cases[k].violations[i]),
                )
        },
        cases.len() > 8 ==> (failing_lines(cases).last() matches LineModel::Note { text }
            && mentions(text, decimal((cases.len() - 8) as nat))),
{
    if cases.len() > 0 {
        let n: nat = if cases.len() <= 8 {
            cases.len()
        } else {
            8
        };
        let head = seq![LineModel::Heading { number: 3, title: "Failing schedules"@ }];
        let mid = case_lines(cases, n);
        let all = failing_lines(cases);
        assert forall|x: LineModel| mid.contains(x) implies all.contains(x) by {
            let i = choose|i: int| 0 <= i < mid.len() && mid[i] == x;
            assert(all[1 + i] == x);
        }
        if 0 <= k < cases.len() && k < 8 {
            lemma_case_first(cases, n, k);
        }
        if cases.len() > 8 {
            let text = "\u{2026} and "@ + decimal((cases.len() - 8) as nat) + " more"@;
            assert(text == ("\u{2026} and "@ + decimal((cases.len() - 8) as nat)) + " more"@);
            assert(all.last() == (LineModel::Note { text }));
        }
    }
}

/// A batch whose orders matter is told of: in how many orders out of how many,
/// and how many neighbours commute. One whose orders do not is passed over.
pub proof fn lemma_dependence_told(i: InterleavingsModel)
    ensures
        i.divergent.len() == 0 ==> dependent_lines(i).len() == 0,
        i.divergent.len() > 0 ==> {
            &&& dependent_lines(i).len() == 3
            &&& dependent_lines(i)[1] matches LineModel::Bad { text } && mentions(
                text,
                decimal(i.divergent.len()),
            ) && mentions(text, decimal(i.total as nat))
            &&& dependent_lines(i)[2] matches LineModel::Note { text } && mentions(
                text,
                decimal(i.commuting_pairs as nat),
            ) && mentions(text, decimal(i.adjacent_pairs as nat))
        },
{
    if i.divergent.len() > 0 {
        let none = Seq::<char>::empty();
        let a = decimal(i.divergent.len());
        let b = decimal(i.total as nat);
        let tail = " orderings change what the agent does"@;
        let one = a + " of "@ + b + tail;
        assert(one =~= (none + a) + (" of "@ + b + tail));
        assert(one =~= ((a + " of "@) + b) + tail);
        let c = decimal(i.commuting_pairs as nat);
        let d = decimal(i.adjacent_pairs as nat);
        let other = c + " of "@ + d + " adjacent pairs commute"@;
        assert(other =~= (none + c) + (" of "@ + d + " adjacent pairs commute"@));
        assert(other =~= ((c + " of "@) + d) + " adjacent pairs commute"@);
    }
}

/// What was checked is told in numbers: positions, kinds, schedules of one fault
/// and, where there were any, of two. All is only said where it was all.
pub proof fn lemma_space_told(c: CoverageModel)
    ensures
        space_lines(c).len() == if c.pairs_checked > 0 {
            4nat
        } else {
            3
        },
        space_lines(c)[1] matches LineModel::Note { text } && mentions(
            text,
            decimal(c.positions as nat),
        ) && mentions(text, decimal(c.kinds as nat)),
        space_lines(c)[2] matches LineModel::Note { text } && mentions(
            text,
            decimal(c.singles_checked as nat),
        ) && mentions(
            text,
            if c.singles_exhaustive {
                " (all of them)"@
            } else {
                " (budget reached)"@
            },
        ),
        c.pairs_checked > 0 ==> (space_lines(c)[3] matches LineModel::Note { text } && mentions(
            text,
            decimal(c.pairs_checked as nat),
        ) && mentions(
            text,
            if c.pairs_exhaustive {
                " (all of them)"@
            } else {
                " (budget reached)"@
            },
        )),
{
    let none = Seq::<char>::empty();
    let a = decimal(c.positions as nat);
    let b = decimal(c.kinds as nat);
    let mid = " faultable positions \u{d7} "@;
    let one = a + mid + b + " fault kinds"@;
    assert(one =~= (none + a) + (mid + b + " fault kinds"@));
    assert(one =~= ((a + mid) + b) + " fault kinds"@);
    let d = decimal(c.singles_checked as nat);
    let e = if c.singles_exhaustive {
        " (all of them)"@
    } else {
        " (budget reached)"@
    };
    let two = d + " single-fault schedules"@ + e;
    assert(two =~= (none + d) + (" single-fault schedules"@ + e));
    assert(two =~= ((d + " single-fault schedules"@) + e) + none);
    if c.pairs_checked > 0 {
        let f = decimal(c.pairs_checked as nat);
        let g = if c.pairs_exhaustive {
            " (all of them)"@
        } else {
            " (budget reached)"@
        };
        let three = f + " pair schedules"@ + g;
        assert(three =~= (none + f) + (" pair schedules"@ + g));
        assert(three =~= ((f + " pair schedules"@) + g) + none);
    }
}

/// A report on a sweep begins with what was checked, and holds what it means and
/// what failed.
pub proof fn lemma_sweep_whole(c: CertificateModel, x: LineModel)
    ensures
        sweep_lines(c).take(space_lines(c.coverage).len() as int) == space_lines(c.coverage),
        meaning_lines(c).contains(x) || failing_lines(c.coverage.failures).contains(x)
            ==> sweep_lines(c).contains(x),
        forall|k: int|
            0 <= k < c.interleavings.len() ==> sweep_lines(c).contains(
                order_line(#[trigger] c.interleavings[k]),
            ),
{
    let l1 = space_lines(c.coverage);
    let l2 = crate::report::order_lines(c.interleavings);
    let l3 = seq![crate::report::replays_line(c)];
    let l4 = meaning_lines(c);
    let l5 = failing_lines(c.coverage.failures);
    let l6 = crate::report::all_dependent_lines(c.interleavings);
    let all = sweep_lines(c);
    assert(all == l1 + l2 + l3 + l4 + l5 + l6);
    assert(all.take(l1.len() as int) =~= l1);
    if l4.contains(x) {
        let i = choose|i: int| 0 <= i < l4.len() && l4[i] == x;
        assert(all[l1.len() + l2.len() + l3.len() + i] == x);
    }
    if l5.contains(x) {
        let i = choose|i: int| 0 <= i < l5.len() && l5[i] == x;
        assert(all[l1.len() + l2.len() + l3.len() + l4.len() + i] == x);
    }
    assert forall|k: int| 0 <= k < c.interleavings.len() implies all.contains(
        order_line(#[trigger] c.interleavings[k]),
    ) by {
        assert(all[l1.len() + k] == l2[k]);
    }
}

// ---------------------------------------------------------------------------
// Colours
// ---------------------------------------------------------------------------

/// A text that is not painted stays as it is. One that is painted is still there,
/// between the code that begins the colour and the one that ends it.
pub proof fn lemma_paint_keeps(code: Seq<char>, text: Seq<char>)
    ensures
        painted(false, code, text) == text,
        painted(true, code, text) == ("\u{1b}["@ + code + "m"@) + text + "\u{1b}[0m"@,
        mentions(painted(true, code, text), text),
{
    assert(painted(true, code, text) == (("\u{1b}["@ + code + "m"@) + text) + "\u{1b}[0m"@);
}

/// A line without colours shows its text behind its mark: a tick where the news
/// is good, a cross where it is bad.
pub proof fn lemma_lines_printed(text: Seq<char>, number: usize)
    ensures
        printed_line(false, LineModel::Good { text }) == "  "@ + "\u{2713}"@ + " "@ + text,
        printed_line(false, LineModel::Bad { text }) == "  "@ + "\u{2717}"@ + " "@ + text,
        printed_line(false, LineModel::Note { text }) == "  "@ + "\u{2022}"@ + " "@ + text,
        mentions(printed_line(false, LineModel::Faults { text }), text),
        mentions(printed_line(false, LineModel::Broke { text }), text),
        mentions(printed_line(false, LineModel::Heading { number, title: text }), text),
        mentions(
            printed_line(false, LineModel::Heading { number, title: text }),
            decimal(number as nat),
        ),
{
    let none = Seq::<char>::empty();
    let n = decimal(number as nat);
    assert(printed_line(false, LineModel::Faults { text }) =~= ("     "@ + text) + none);
    assert(printed_line(false, LineModel::Broke { text }) =~= ("       "@ + text) + none);
    let line = printed_line(false, LineModel::Heading { number, title: text });
    assert(line =~= ("\n"@ + n) + ("."@ + " "@ + text));
    assert(line =~= (("\n"@ + (n + "."@) + " "@) + text) + none);
}

} // verus!
