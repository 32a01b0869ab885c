//! Reducing a failing schedule.

use samsara::fault::{Fault, FaultPoint, FaultSchedule};
use samsara::shrink::{partition, shrink, Reduction};

fn sched(seqs: &[u64]) -> FaultSchedule {
    FaultSchedule::of(
        seqs.iter()
            .map(|&seq| FaultPoint {
                seq,
                fault: Fault::Timeout,
            })
            .collect(),
    )
}

fn seqs_of(s: &FaultSchedule) -> Vec<u64> {
    s.points.iter().map(|p| p.seq).collect()
}

#[test]
fn isolates_a_single_culprit_from_a_crowd() {
    let input = sched(&(0..32).collect::<Vec<_>>());
    // Only the presence of #17 matters.
    let out = shrink(&input, |s: &FaultSchedule| s.points.iter().any(|p| p.seq == 17));

    assert_eq!(seqs_of(&out.schedule), vec![17]);
    assert_eq!(out.started_with, 32);
    assert!(
        out.evaluations < 32,
        "ddmin should beat linear search, took {}",
        out.evaluations
    );
}

#[test]
fn isolates_a_pair_that_only_fails_together() {
    let input = sched(&(0..24).collect::<Vec<_>>());
    let out = shrink(&input, |s: &FaultSchedule| {
        let have: Vec<u64> = seqs_of(s);
        have.contains(&3) && have.contains(&19)
    });
    let mut got = seqs_of(&out.schedule);
    got.sort_unstable();
    assert_eq!(got, vec![3, 19]);
}

#[test]
fn a_non_reproducing_input_is_returned_untouched() {
    let input = sched(&[1, 2, 3]);
    let out = shrink(&input, |_: &FaultSchedule| false);
    assert_eq!(out.schedule, input);
    assert_eq!(
        out.evaluations, 1,
        "one probe is enough to learn it never fails"
    );
}

#[test]
fn an_always_failing_predicate_shrinks_to_nothing_or_one() {
    let input = sched(&[1, 2, 3, 4]);
    let out = shrink(&input, |_: &FaultSchedule| true);
    assert!(out.schedule.len() <= 1, "got {:?}", seqs_of(&out.schedule));
}

#[test]
fn result_is_one_minimal() {
    // Fails if any two of {2,5,9} are present.
    let input = sched(&(0..16).collect::<Vec<_>>());
    let target = [2u64, 5, 9];
    let out = shrink(&input, |s: &FaultSchedule| {
        seqs_of(s).iter().filter(|q| target.contains(q)).count() >= 2
    });

    // Removing any single remaining fault must break reproduction.
    for i in 0..out.schedule.len() {
        let mut lesser = out.schedule.points.clone();
        lesser.remove(i);
        let smaller = FaultSchedule::of(lesser);
        let still = seqs_of(&smaller)
            .iter()
            .filter(|q| target.contains(q))
            .count()
            >= 2;
        assert!(!still, "not 1-minimal: could still drop #{i}");
    }
}

#[test]
fn partition_covers_everything_exactly_once() {
    for n in 1..=7 {
        let items: Vec<u64> = (0..13).collect();
        let chunks = partition(&items, n);
        let flat: Vec<u64> = chunks.iter().flatten().copied().collect();
        assert_eq!(flat, items, "n={n}");
        let sizes: Vec<usize> = chunks.iter().map(|c| c.len()).collect();
        let (lo, hi) = (sizes.iter().min().unwrap(), sizes.iter().max().unwrap());
        assert!(hi - lo <= 1, "chunks must be balanced, got {sizes:?}");
    }
}

#[test]
fn a_reduction_can_be_driven_one_question_at_a_time() {
    let input = sched(&[4, 5, 6, 7]);
    let mut reduction = Reduction::new(&input);
    let mut asked = 0;
    let mut last_failing = input.clone();
    while let Some(candidate) = reduction.candidate() {
        asked += 1;
        let failed = seqs_of(&candidate).contains(&6);
        if failed {
            last_failing = candidate;
        }
        reduction.answer(failed);
    }
    assert_eq!(seqs_of(&last_failing), vec![6]);
    let at_once = shrink(&input, |s: &FaultSchedule| seqs_of(s).contains(&6));
    assert_eq!(at_once.schedule, last_failing);
    assert_eq!(at_once.evaluations, asked);
    assert_eq!(at_once.removed(), 3);
}

#[test]
fn a_shrunk_schedule_reports_what_was_removed() {
    let input = sched(&[1, 2, 3]);
    let out = shrink(&input, |s: &FaultSchedule| seqs_of(s).contains(&2));
    let text = out.report();
    assert!(text.contains("3 faults"), "{text}");
    assert!(text.contains("#2 timeout"), "{text}");
}

#[test]
fn a_repeated_point_is_left_out_by_its_place() {
    let input = sched(&[1, 1, 2]);
    let out = shrink(&input, |s: &FaultSchedule| s.at(1).is_some() && s.at(2).is_some());
    assert_eq!(out.schedule, sched(&[1, 2]));
    // Where both copies are needed, both stay.
    let twice = shrink(&input, |s: &FaultSchedule| {
        seqs_of(s).iter().filter(|q| **q == 1).count() == 2
    });
    assert_eq!(twice.schedule, sched(&[1, 1]));
}
