//! Delta debugging over fault schedules.
//!
//! A schedule that breaks an agent usually holds a dozen faults, most of them
//! irrelevant. `ddmin` (Zeller and Hildebrandt, 2002) reduces it to one in
//! which every fault is load-bearing: removing any single one makes the
//! failure go away.

use crate::fault::{copy_points, description, FaultPoint, FaultSchedule, PointModel};
use crate::model::views;
use crate::text::{decimal, show_size};
use vstd::prelude::*;

verus! {

// ---------------------------------------------------------------------------
// Parts of a list
// ---------------------------------------------------------------------------

/// How many items the `i`th of `n` near-equal parts of `len` items holds: the
/// first parts take one more each, as far as the remainder goes.
pub open spec fn part_size(len: nat, n: nat, i: nat) -> nat {
    len / n + if i < len % n {
        1nat
    } else {
        0nat
    }
}

/// Where the `i`th of `n` near-equal parts of `len` items begins.
pub open spec fn part_start(len: nat, n: nat, i: nat) -> nat
    decreases i,
{
    if i == 0 {
        0
    } else {
        part_start(len, n, (i - 1) as nat) + part_size(len, n, (i - 1) as nat)
    }
}

/// The `i`th of `n` near-equal parts of a list.
pub open spec fn part<T>(items: Seq<T>, n: nat, i: nat) -> Seq<T> {
    items.subrange(
        part_start(items.len(), n, i) as int,
        part_start(items.len(), n, i + 1) as int,
    )
}

proof fn lemma_part_start(len: nat, n: nat, i: nat)
    requires
        0 < n,
    ensures
        part_start(len, n, i) == i * (len / n) + if i < len % n {
            i
        } else {
            len % n
        },
    decreases i,
{
    if i == 0 {
        assert(0 * (len / n) == 0) by (nonlinear_arith);
    } else {
        lemma_part_start(len, n, (i - 1) as nat);
        let q: int = (len / n) as int;
        let k: int = i as int;
        assert(k * q == (k - 1) * q + q) by (nonlinear_arith);
    }
}

/// The parts of a list follow one another and end where the list ends.
pub proof fn lemma_parts(len: nat, n: nat, i: nat)
    requires
        0 < n <= len,
        i <= n,
    ensures
        part_start(len, n, i) <= len,
        part_start(len, n, n) == len,
        i < n ==> part_start(len, n, i) < part_start(len, n, i + 1) <= len,
        n >= 2 && i < n ==> part_size(len, n, i) < len,
    decreases n - i,
{
    lemma_part_start(len, n, n);
    assert(len == n * (len / n) + len % n) by (nonlinear_arith)
        requires
            0 < n,
    ;
    assert(len / n >= 1) by (nonlinear_arith)
        requires
            0 < n <= len,
    ;
    if i < n {
        lemma_parts(len, n, i + 1);
        if n >= 2 {
            assert(2 * (len / n) <= n * (len / n)) by (nonlinear_arith)
                requires
                    n >= 2,
            ;
        }
    }
}

/// Split into `n` contiguous parts of near-equal size.
pub fn partition<T: Clone>(items: &[T], n: usize) -> (r: Vec<Vec<T>>)
    ensures
        n == 0 || items@.len() == 0 ==> r@.len() == 0,
        n > 0 && items@.len() > 0 ==> {
            let parts = if n < items@.len() {
                n as nat
            } else {
                items@.len()
            };
            &&& r@.len() == parts
            &&& forall|i: int|
                0 <= i < parts ==> (#[trigger] r@[i])@.len() == part_size(
                    items@.len(),
                    parts,
                    i as nat,
                )
            &&& forall|i: int, j: int|
                0 <= i < parts && 0 <= j < r@[i]@.len() ==> cloned(
                    items@[part_start(items@.len(), parts, i as nat) + j],
                    #[trigger] r@[i]@[j],
                )
        },
{
    let mut chunks: Vec<Vec<T>> = Vec::new();
    if n == 0 || items.len() == 0 {
        return chunks;
    }
    let len: usize = items.len();
    let parts: usize = if n < len {
        n
    } else {
        len
    };
    let base: usize = len / parts;
    let extra: usize = len % parts;
    let mut start: usize = 0;
    let mut i: usize = 0;
    while i < parts
        invariant
            i <= parts,
            0 < parts <= len,
            len == items@.len(),
            base == len / parts,
            extra == len % parts,
            start == part_start(len as nat, parts as nat, i as nat),
            chunks@.len() == i,
            forall|k: int|
                0 <= k < i ==> (#[trigger] chunks@[k])@.len() == part_size(
                    len as nat,
                    parts as nat,
                    k as nat,
                ),
            forall|k: int, j: int|
                0 <= k < i && 0 <= j < chunks@[k]@.len() ==> cloned(
                    items@[part_start(len as nat, parts as nat, k as nat) + j],
                    #[trigger] chunks@[k]@[j],
                ),
        decreases parts - i,
    {
        proof {
            lemma_parts(len as nat, parts as nat, i as nat);
        }
        let size: usize = if i < extra {
            base + 1
        } else {
            base
        };
        let mut chunk: Vec<T> = Vec::new();
        let mut j: usize = 0;
        while j < size
            invariant
                j <= size,
                start + size <= len,
                len == items@.len(),
                chunk@.len() == j,
                forall|k: int| 0 <= k < j ==> cloned(items@[start + k], #[trigger] chunk@[k]),
            decreases size - j,
        {
            chunk.push(items[start + j].clone());
            j += 1;
        }
        chunks.push(chunk);
        start += size;
        i += 1;
    }
    chunks
}

// ---------------------------------------------------------------------------
// The reduction
// ---------------------------------------------------------------------------

/// Whether a schedule fails, as a function of its points.
pub type Verdict = spec_fn(Seq<PointModel>) -> bool;

/// What is left of some points without the `i`th of `n` near-equal parts. The
/// part goes by its place: a point that is repeated elsewhere stays there.
pub open spec fn without(points: Seq<PointModel>, n: nat, i: nat) -> Seq<PointModel> {
    points.take(part_start(points.len(), n, i) as int) + points.skip(
        part_start(points.len(), n, i + 1) as int,
    )
}

/// The first part, from the `i`th of `n`, that fails on its own (-1 where
/// none does), and how many parts are tried to find out.
pub open spec fn failing_part(fails: Verdict, points: Seq<PointModel>, n: nat, i: nat) -> (
    int,
    nat,
)
    decreases n - i,
{
    if i >= n {
        (-1, 0)
    } else if fails(part(points, n, i)) {
        (i as int, 1)
    } else {
        let later = failing_part(fails, points, n, i + 1);
        (later.0, later.1 + 1)
    }
}

/// The first part, from the `i`th of `n`, without which the rest still fails
/// (-1 where there is none), and how many rests are tried to find out.
pub open spec fn needless_part(fails: Verdict, points: Seq<PointModel>, n: nat, i: nat) -> (
    int,
    nat,
)
    decreases n - i,
{
    if i >= n {
        (-1, 0)
    } else if fails(without(points, n, i)) {
        (i as int, 1)
    } else {
        let later = needless_part(fails, points, n, i + 1);
        (later.0, later.1 + 1)
    }
}

/// How many parts to try next where nothing could be left out.
pub open spec fn finer(grain: nat, len: nat) -> nat {
    if grain > len / 2 {
        len
    } else {
        grain * 2
    }
}

/// How many parts to try next where one part could be left out.
pub open spec fn coarser(grain: nat) -> nat {
    if grain > 3 {
        (grain - 1) as nat
    } else {
        2
    }
}

/// How many parts a list of this length is split into.
pub open spec fn parts_of(grain: nat, len: nat) -> nat {
    if grain < len {
        grain
    } else {
        len
    }
}

/// What `ddmin` reduces failing points to, starting with `grain` parts, and
/// how many schedules it tries on the way: a part that fails on its own
/// replaces the whole; else a rest that fails without one part does; else the
/// parts get finer, until they are single points.
pub open spec fn ddmin(fails: Verdict, points: Seq<PointModel>, grain: nat) -> (
    Seq<PointModel>,
    nat,
)
    decreases points.len(), points.len() - grain,
{
    let n = parts_of(grain, points.len());
    let alone = failing_part(fails, points, n, 0);
    let left = needless_part(fails, points, n, 0);
    let kept = part(points, n, alone.0 as nat);
    let rest = without(points, n, left.0 as nat);
    if points.len() < 2 {
        (points, 0)
    } else if alone.0 >= 0 {
        if kept.len() < points.len() {
            let then = ddmin(fails, kept, 2);
            (then.0, alone.1 + then.1)
        } else {
            arbitrary()
        }
    } else if left.0 >= 0 {
        if rest.len() < points.len() {
            let then = ddmin(fails, rest, coarser(grain));
            (then.0, alone.1 + left.1 + then.1)
        } else {
            arbitrary()
        }
    } else if grain >= points.len() {
        (points, alone.1 + left.1)
    } else if grain >= 1 {
        let then = ddmin(fails, points, finer(grain, points.len()));
        (then.0, alone.1 + left.1 + then.1)
    } else {
        arbitrary()
    }
}

/// What a shrink gives for a schedule, and how many schedules it tries: one
/// that does not fail is left as it is.
pub open spec fn minimal(fails: Verdict, points: Seq<PointModel>) -> (Seq<PointModel>, nat) {
    if fails(points) {
        let out = ddmin(fails, points, 2);
        (out.0, out.1 + 1)
    } else {
        (points, 1)
    }
}

/// A count as far as the machine can hold it.
pub open spec fn capped(n: nat) -> nat {
    if n < usize::MAX {
        n
    } else {
        usize::MAX as nat
    }
}

/// Whether a list is what deleting some points of another leaves.
pub open spec fn sublist(a: Seq<PointModel>, b: Seq<PointModel>) -> bool
    decreases b.len(),
{
    if a.len() == 0 {
        true
    } else if b.len() == 0 {
        false
    } else {
        (a.last() == b.last() && sublist(a.drop_last(), b.drop_last())) || sublist(a, b.drop_last())
    }
}

/// Deleting in steps is deleting.
pub proof fn lemma_sublist_transitive(a: Seq<PointModel>, b: Seq<PointModel>, c: Seq<PointModel>)
    requires
        sublist(a, b),
        sublist(b, c),
    ensures
        sublist(a, c),
    decreases c.len(),
{
    if a.len() > 0 && b.len() > 0 && c.len() > 0 {
        if b.last() == c.last() && sublist(b.drop_last(), c.drop_last()) {
            if a.last() == b.last() && sublist(a.drop_last(), b.drop_last()) {
                lemma_sublist_transitive(a.drop_last(), b.drop_last(), c.drop_last());
            } else {
                lemma_sublist_transitive(a, b.drop_last(), c.drop_last());
            }
        } else {
            lemma_sublist_transitive(a, b, c.drop_last());
        }
    }
}

/// Every list is a sublist of itself.
pub proof fn lemma_sublist_self(a: Seq<PointModel>)
    ensures
        sublist(a, a),
    decreases a.len(),
{
    if a.len() > 0 {
        lemma_sublist_self(a.drop_last());
    }
}

proof fn lemma_sublist_range(a: Seq<PointModel>, i: int, j: int)
    requires
        0 <= i <= j <= a.len(),
    ensures
        sublist(a.subrange(i, j), a),
    decreases a.len(),
{
    if j > i {
        let front = a.drop_last();
        if j == a.len() {
            lemma_sublist_range(front, i, j - 1);
            assert(a.subrange(i, j).drop_last() =~= front.subrange(i, j - 1));
        } else {
            lemma_sublist_range(front, i, j);
            assert(a.subrange(i, j) =~= front.subrange(i, j));
        }
    }
}

proof fn lemma_sublist_gap(a: Seq<PointModel>, i: int, j: int)
    requires
        0 <= i <= j <= a.len(),
    ensures
        sublist(a.take(i) + a.skip(j), a),
    decreases a.len(),
{
    let left = a.take(i) + a.skip(j);
    if j == a.len() {
        assert(left =~= a.subrange(0, i));
        lemma_sublist_range(a, 0, i);
    } else {
        let front = a.drop_last();
        lemma_sublist_gap(front, i, j);
        assert(left.drop_last() =~= front.take(i) + front.skip(j));
        assert(left.last() == a.last());
    }
}

/// A part of several is shorter than the whole, and a sublist of it.
proof fn lemma_part(points: Seq<PointModel>, n: nat, i: nat)
    requires
        2 <= n <= points.len(),
        i < n,
    ensures
        0 < part(points, n, i).len() < points.len(),
        part(points, n, i).len() == part_size(points.len(), n, i),
        sublist(part(points, n, i), points),
{
    lemma_parts(points.len(), n, i);
    lemma_sublist_range(
        points,
        part_start(points.len(), n, i) as int,
        part_start(points.len(), n, i + 1) as int,
    );
}

/// What a part leaves is shorter than the whole, and a sublist of it.
proof fn lemma_without(points: Seq<PointModel>, n: nat, i: nat)
    requires
        2 <= n <= points.len(),
        i < n,
    ensures
        0 < without(points, n, i).len() < points.len(),
        sublist(without(points, n, i), points),
{
    lemma_part(points, n, i);
    lemma_parts(points.len(), n, i);
    lemma_sublist_gap(
        points,
        part_start(points.len(), n, i) as int,
        part_start(points.len(), n, i + 1) as int,
    );
}

proof fn lemma_failing_part(fails: Verdict, points: Seq<PointModel>, n: nat, i: nat)
    ensures
        ({
            let found = failing_part(fails, points, n, i).0;
            &&& -1 <= found
            &&& found >= 0 ==> i <= found < n && fails(part(points, n, found as nat))
            &&& found < 0 ==> forall|k: int|
                i <= k < n ==> !fails(#[trigger] part(points, n, k as nat))
        }),
    decreases n - i,
{
    if i < n && !fails(part(points, n, i)) {
        lemma_failing_part(fails, points, n, i + 1);
    }
}

proof fn lemma_needless_part(fails: Verdict, points: Seq<PointModel>, n: nat, i: nat)
    ensures
        ({
            let found = needless_part(fails, points, n, i).0;
            &&& -1 <= found
            &&& found >= 0 ==> i <= found < n && fails(without(points, n, found as nat))
            &&& found < 0 ==> forall|k: int|
                i <= k < n ==> !fails(#[trigger] without(points, n, k as nat))
        }),
    decreases n - i,
{
    if i < n && !fails(without(points, n, i)) {
        lemma_needless_part(fails, points, n, i + 1);
    }
}

// ---------------------------------------------------------------------------
// What the reduction keeps
// ---------------------------------------------------------------------------

/// Reducing deletes points and nothing else, and what is left still fails.
pub proof fn lemma_ddmin_fails(fails: Verdict, points: Seq<PointModel>, grain: nat)
    requires
        fails(points),
        grain >= 2,
    ensures
        fails(ddmin(fails, points, grain).0),
        sublist(ddmin(fails, points, grain).0, points),
    decreases points.len(), points.len() - grain,
{
    let n = parts_of(grain, points.len());
    let alone = failing_part(fails, points, n, 0);
    let left = needless_part(fails, points, n, 0);
    lemma_failing_part(fails, points, n, 0);
    lemma_needless_part(fails, points, n, 0);
    lemma_sublist_self(points);
    if points.len() >= 2 {
        if alone.0 >= 0 {
            let kept = part(points, n, alone.0 as nat);
            lemma_part(points, n, alone.0 as nat);
            lemma_ddmin_fails(fails, kept, 2);
            lemma_sublist_transitive(ddmin(fails, kept, 2).0, kept, points);
        } else if left.0 >= 0 {
            let rest = without(points, n, left.0 as nat);
            lemma_without(points, n, left.0 as nat);
            lemma_ddmin_fails(fails, rest, coarser(grain));
            lemma_sublist_transitive(ddmin(fails, rest, coarser(grain)).0, rest, points);
        } else if grain < points.len() {
            lemma_ddmin_fails(fails, points, finer(grain, points.len()));
        }
    }
}

/// Where every part is a single point, leaving one out is removing it.
proof fn lemma_single_parts(points: Seq<PointModel>, i: int)
    requires
        0 <= i < points.len(),
    ensures
        without(points, points.len(), i as nat) == points.remove(i),
{
    let n = points.len();
    lemma_part_start(n, n, i as nat);
    lemma_part_start(n, n, (i + 1) as nat);
    assert(n / n == 1 && n % n == 0) by (nonlinear_arith)
        requires
            n > 0,
    ;
    assert(i * 1 == i && (i + 1) * 1 == i + 1);
    assert(without(points, n, i as nat) =~= points.remove(i));
}

/// What reducing leaves is minimal, whether or not points are repeated: not one
/// that is left can be removed without losing the failure. The schedule without
/// faults is never tried, so where a single point is left the failure must be
/// known not to come without any.
pub proof fn lemma_one_minimal(fails: Verdict, points: Seq<PointModel>, grain: nat, i: int)
    requires
        fails(points),
        grain >= 2,
        0 <= i < ddmin(fails, points, grain).0.len(),
        ddmin(fails, points, grain).0.len() >= 2 || !fails(seq![]),
    ensures
        !fails(ddmin(fails, points, grain).0.remove(i)),
    decreases points.len(), points.len() - grain,
{
    let n = parts_of(grain, points.len());
    let alone = failing_part(fails, points, n, 0);
    let left = needless_part(fails, points, n, 0);
    lemma_failing_part(fails, points, n, 0);
    lemma_needless_part(fails, points, n, 0);
    if points.len() < 2 {
        assert(points.remove(i) =~= seq![]);
    } else if alone.0 >= 0 {
        let kept = part(points, n, alone.0 as nat);
        lemma_part(points, n, alone.0 as nat);
        lemma_one_minimal(fails, kept, 2, i);
    } else if left.0 >= 0 {
        let rest = without(points, n, left.0 as nat);
        lemma_without(points, n, left.0 as nat);
        lemma_one_minimal(fails, rest, coarser(grain), i);
    } else if grain >= points.len() {
        lemma_single_parts(points, i);
        assert(!fails(without(points, n, i as nat)));
    } else {
        lemma_one_minimal(fails, points, finer(grain, points.len()), i);
    }
}

// ---------------------------------------------------------------------------
// The search
// ---------------------------------------------------------------------------

/// Outcome of a shrink, with the arithmetic that justifies it.
#[derive(Debug)]
pub struct Shrunk {
    /// The minimal failing schedule.
    pub schedule: FaultSchedule,
    /// How many faults there were at first.
    pub started_with: usize,
    /// How many schedules were tried. Each is a full replay.
    pub evaluations: usize,
}

/// The report on a shrink.
pub open spec fn shrink_report(
    started_with: nat,
    left: Seq<PointModel>,
    evaluations: nat,
) -> Seq<char> {
    "shrank "@ + decimal(started_with) + " faults to "@ + decimal(left.len()) + " in "@ + decimal(
        evaluations,
    ) + " replays\n  "@ + description(left)
}

impl Shrunk {
    /// How many faults were deleted.
    pub fn removed(&self) -> (r: usize)
        ensures
            r == if self.started_with > self.schedule@.len() {
                self.started_with - self.schedule@.len()
            } else {
                0
            },
    {
        if self.started_with > self.schedule.len() {
            self.started_with - self.schedule.len()
        } else {
            0
        }
    }

    /// What was shrunk to what, at what cost.
    pub fn report(&self) -> (r: String)
        ensures
            r@ == shrink_report(
                self.started_with as nat,
                self.schedule@,
                self.evaluations as nat,
            ),
    {
        let mut out = "shrank ".to_owned();
        out.append(show_size(self.started_with).as_str());
        out.append(" faults to ");
        out.append(show_size(self.schedule.len()).as_str());
        out.append(" in ");
        out.append(show_size(self.evaluations).as_str());
        out.append(" replays\n  ");
        out.append(self.schedule.describe().as_str());
        out
    }
}

/// Adds one to a count, as far as the machine can hold it.
pub(crate) fn count_up(n: usize) -> (r: usize)
    ensures
        r == capped((n + 1) as nat),
{
    if n < usize::MAX {
        n + 1
    } else {
        n
    }
}

/// Where the `i`th of `n` near-equal parts of `len` items begins.
fn find_start(len: usize, n: usize, i: usize) -> (r: usize)
    requires
        2 <= n <= len,
        i <= n,
    ensures
        r == part_start(len as nat, n as nat, i as nat),
{
    let base: usize = len / n;
    let extra: usize = len % n;
    let mut start: usize = 0;
    let mut k: usize = 0;
    while k < i
        invariant
            k <= i <= n,
            2 <= n <= len,
            base == len / n,
            extra == len % n,
            start == part_start(len as nat, n as nat, k as nat),
        decreases i - k,
    {
        proof {
            lemma_parts(len as nat, n as nat, k as nat);
        }
        start += if k < extra {
            base + 1
        } else {
            base
        };
        k += 1;
    }
    start
}

/// Copies the points from `from` up to `to` behind others.
fn copy_range(points: &Vec<FaultPoint>, from: usize, to: usize, out: &mut Vec<FaultPoint>)
    requires
        from <= to <= points@.len(),
    ensures
        views(final(out)@) == views(old(out)@) + views(points@).subrange(from as int, to as int),
{
    let ghost all = views(points@);
    let ghost start = views(out@);
    let mut j: usize = from;
    assert(start + all.subrange(from as int, from as int) =~= start);
    while j < to
        invariant
            from <= j <= to <= points@.len(),
            all == views(points@),
            views(out@) == start + all.subrange(from as int, j as int),
        decreases to - j,
    {
        let ghost before = out@;
        out.push(points[j].clone());
        proof {
            assert(views(out@) =~= views(before).push(all[j as int]));
            assert(views(out@) =~= start + all.subrange(from as int, j + 1));
        }
        j += 1;
    }
}

/// One part of a list of points.
fn take_part(points: &Vec<FaultPoint>, n: usize, i: usize) -> (r: FaultSchedule)
    requires
        2 <= n <= points@.len(),
        i < n,
    ensures
        r@ == part(views(points@), n as nat, i as nat),
{
    let from: usize = find_start(points.len(), n, i);
    let to: usize = find_start(points.len(), n, i + 1);
    proof {
        lemma_parts(points@.len(), n as nat, i as nat);
    }
    let mut out: Vec<FaultPoint> = Vec::new();
    copy_range(points, from, to, &mut out);
    assert(views(out@) =~= part(views(points@), n as nat, i as nat));
    FaultSchedule::of(out)
}

/// What is left of a list of points without one part.
fn leave_out(points: &Vec<FaultPoint>, n: usize, i: usize) -> (r: FaultSchedule)
    requires
        2 <= n <= points@.len(),
        i < n,
    ensures
        r@ == without(views(points@), n as nat, i as nat),
{
    let from: usize = find_start(points.len(), n, i);
    let to: usize = find_start(points.len(), n, i + 1);
    proof {
        lemma_parts(points@.len(), n as nat, i as nat);
    }
    let mut out: Vec<FaultPoint> = Vec::new();
    copy_range(points, 0, from, &mut out);
    copy_range(points, to, points.len(), &mut out);
    assert(views(out@) =~= without(views(points@), n as nat, i as nat));
    FaultSchedule::of(out)
}

/// How far a reduction has come.
#[derive(Clone, Copy, Debug, PartialEq, Eq, Structural)]
pub enum Stage {
    /// Whether the whole schedule fails is not known yet.
    Whole,
    /// The `at`th part is next.
    Part { at: usize },
    /// What is left without the `at`th part is next.
    Rest { at: usize },
    /// Nothing more can be left out.
    Done,
}

/// A reduction under way: it says which schedule to try next, and is told
/// whether that one fails.
#[derive(Debug)]
pub struct Reduction {
    pub current: Vec<FaultPoint>,
    pub grain: usize,
    pub stage: Stage,
}

impl Reduction {
    /// The points that are known to fail, or the whole schedule at first.
    pub open spec fn points(&self) -> Seq<PointModel> {
        views(self.current@)
    }

    /// How many parts the points are split into.
    pub open spec fn parts(&self) -> nat {
        parts_of(self.grain as nat, self.points().len())
    }

    /// Whether there is a candidate wherever one is due.
    pub open spec fn well_formed(&self) -> bool {
        &&& self.grain >= 2
        &&& self.stage matches Stage::Part { at } ==> self.points().len() >= 2 && at < self.parts()
        &&& self.stage matches Stage::Rest { at } ==> self.points().len() >= 2 && at < self.parts()
    }

    /// The points to try next.
    pub open spec fn next(&self) -> Seq<PointModel> {
        match self.stage {
            Stage::Part { at } => part(self.points(), self.parts(), at as nat),
            Stage::Rest { at } => without(self.points(), self.parts(), at as nat),
            _ => self.points(),
        }
    }

    /// What the reduction will end with, and how many schedules it will have
    /// tried from here on, where `fails` gives the answers.
    pub open spec fn pending(&self, fails: Verdict) -> (Seq<PointModel>, nat) {
        match self.stage {
            Stage::Whole => minimal(fails, self.points()),
            Stage::Part { at } => from_part(fails, self.points(), self.grain as nat, at as nat),
            Stage::Rest { at } => from_rest(fails, self.points(), self.grain as nat, at as nat),
            Stage::Done => (self.points(), 0),
        }
    }

    /// What is left to do, for termination: each answer lowers the first of
    /// these that it changes.
    pub open spec fn effort(&self) -> (nat, nat, nat, nat) {
        let len = self.points().len();
        let n = self.parts();
        match self.stage {
            Stage::Whole => (1, 0, 0, 0),
            Stage::Part { at } => (0, len, (len - n) as nat, (2 * n - at) as nat),
            Stage::Rest { at } => (0, len, (len - n) as nat, (n - at) as nat),
            Stage::Done => (0, 0, 0, 0),
        }
    }
}

/// Whether an effort is lower than another.
pub open spec fn lower(a: (nat, nat, nat, nat), b: (nat, nat, nat, nat)) -> bool {
    ||| a.0 < b.0
    ||| a.0 == b.0 && a.1 < b.1
    ||| a.0 == b.0 && a.1 == b.1 && a.2 < b.2
    ||| a.0 == b.0 && a.1 == b.1 && a.2 == b.2 && a.3 < b.3
}

/// What `ddmin` ends with, and how many schedules it tries, from the rest
/// without the `at`th part on.
pub open spec fn from_rest(fails: Verdict, points: Seq<PointModel>, grain: nat, at: nat) -> (
    Seq<PointModel>,
    nat,
) {
    let n = parts_of(grain, points.len());
    let left = needless_part(fails, points, n, at);
    if left.0 >= 0 {
        let out = ddmin(fails, without(points, n, left.0 as nat), coarser(grain));
        (out.0, left.1 + out.1)
    } else if grain >= points.len() {
        (points, left.1)
    } else {
        let out = ddmin(fails, points, finer(grain, points.len()));
        (out.0, left.1 + out.1)
    }
}

/// What `ddmin` ends with, and how many schedules it tries, from the `at`th
/// part on.
pub open spec fn from_part(fails: Verdict, points: Seq<PointModel>, grain: nat, at: nat) -> (
    Seq<PointModel>,
    nat,
) {
    let n = parts_of(grain, points.len());
    let alone = failing_part(fails, points, n, at);
    if alone.0 >= 0 {
        let out = ddmin(fails, part(points, n, alone.0 as nat), 2);
        (out.0, alone.1 + out.1)
    } else {
        let out = from_rest(fails, points, grain, 0);
        (out.0, alone.1 + out.1)
    }
}

/// From the first part on is all of `ddmin`.
proof fn lemma_from_start(fails: Verdict, points: Seq<PointModel>, grain: nat)
    requires
        grain >= 2,
        points.len() >= 2,
    ensures
        from_part(fails, points, grain, 0) == ddmin(fails, points, grain),
{
    let n = parts_of(grain, points.len());
    lemma_failing_part(fails, points, n, 0);
    lemma_needless_part(fails, points, n, 0);
    let alone = failing_part(fails, points, n, 0);
    let left = needless_part(fails, points, n, 0);
    if alone.0 >= 0 {
        lemma_part(points, n, alone.0 as nat);
    } else if left.0 >= 0 {
        lemma_without(points, n, left.0 as nat);
    }
}

impl Reduction {
    /// A reduction of a schedule, with the whole of it to try first.
    pub fn new(schedule: &FaultSchedule) -> (r: Reduction)
        ensures
            r.well_formed(),
            r.points() == schedule@,
            r.stage == Stage::Whole,
    {
        Reduction { current: copy_points(&schedule.points), grain: 2, stage: Stage::Whole }
    }

    /// How many parts the points are split into.
    fn count_parts(&self) -> (r: usize)
        ensures
            r == self.parts(),
    {
        if self.grain < self.current.len() {
            self.grain
        } else {
            self.current.len()
        }
    }

    /// What is left without the `at`th part.
    fn rest_without(&self, at: usize) -> (r: FaultSchedule)
        requires
            self.grain >= 2,
            self.points().len() >= 2,
            at < self.parts(),
        ensures
            r@ == without(self.points(), self.parts(), at as nat),
    {
        let n: usize = self.count_parts();
        leave_out(&self.current, n, at)
    }

    /// The schedule to try next, until nothing more can be left out.
    pub fn candidate(&self) -> (r: Option<FaultSchedule>)
        requires
            self.well_formed(),
        ensures
            r is None <==> self.stage == Stage::Done,
            r is Some ==> r->0@ == self.next(),
    {
        match self.stage {
            Stage::Whole => Some(FaultSchedule::of(copy_points(&self.current))),
            Stage::Part { at } => {
                let n: usize = self.count_parts();
                Some(take_part(&self.current, n, at))
            },
            Stage::Rest { at } => Some(self.rest_without(at)),
            Stage::Done => None,
        }
    }

    /// Begins a round over what is known to fail, or ends where a single
    /// point is left.
    fn begin(&mut self)
        requires
            old(self).grain >= 2,
        ensures
            final(self).well_formed(),
            final(self).current == old(self).current,
            final(self).stage != Stage::Whole,
            final(self).stage == Stage::Done || final(self).effort() == (
                0nat,
                old(self).points().len(),
                (old(self).points().len() - old(self).parts()) as nat,
                2 * old(self).parts(),
            ),
            forall|fails: Verdict| #[trigger]
                final(self).pending(fails) == ddmin(
                    fails,
                    old(self).points(),
                    old(self).grain as nat,
                ),
    {
        if self.current.len() >= 2 {
            self.stage = Stage::Part { at: 0 };
            proof {
                assert forall|fails: Verdict| #[trigger] self.pending(fails) == ddmin(
                    fails,
                    self.points(),
                    self.grain as nat,
                ) by {
                    lemma_from_start(fails, self.points(), self.grain as nat);
                }
            }
        } else {
            self.stage = Stage::Done;
        }
    }

    /// Goes on to the rest without the `at`th part, or to a finer split where
    /// there is no such part, or ends.
    fn seek_rest(&mut self, at: usize)
        requires
            old(self).grain >= 2,
            old(self).points().len() >= 2,
            at <= old(self).parts(),
        ensures
            final(self).well_formed(),
            final(self).current == old(self).current,
            final(self).stage != Stage::Whole,
            lower(
                final(self).effort(),
                (
                    0nat,
                    old(self).points().len(),
                    (old(self).points().len() - old(self).parts()) as nat,
                    (old(self).parts() - at + 1) as nat,
                ),
            ),
            forall|fails: Verdict| #[trigger]
                final(self).pending(fails) == from_rest(
                    fails,
                    old(self).points(),
                    old(self).grain as nat,
                    at as nat,
                ),
    {
        let len: usize = self.current.len();
        let n: usize = self.count_parts();
        if at < n {
            self.stage = Stage::Rest { at };
        } else if self.grain >= len {
            self.stage = Stage::Done;
        } else {
            if self.grain > len / 2 {
                self.grain = len;
            } else {
                self.grain = self.grain * 2;
            }
            self.begin();
        }
    }

    /// Takes the answer about the candidate.
    pub fn answer(&mut self, failed: bool)
        requires
            old(self).well_formed(),
            old(self).stage != Stage::Done,
        ensures
            final(self).well_formed(),
            final(self).stage != Stage::Whole,
            lower(final(self).effort(), old(self).effort()),
            failed ==> final(self).points() == old(self).next(),
            !failed ==> final(self).points() == old(self).points(),
            sublist(old(self).next(), old(self).points()),
            old(self).stage == Stage::Whole && !failed ==> final(self).stage == Stage::Done,
            forall|fails: Verdict|
                fails(old(self).next()) == failed ==> {
                    let before = #[trigger] old(self).pending(fails);
                    let after = final(self).pending(fails);
                    before.0 == after.0 && before.1 == after.1 + 1
                },
    {
        let ghost start = *self;
        let ghost all = self.points();
        match self.stage {
            Stage::Whole => {
                proof {
                    lemma_sublist_self(all);
                }
                if failed {
                    self.grain = 2;
                    self.begin();
                } else {
                    self.stage = Stage::Done;
                }
            },
            Stage::Part { at } => {
                let n: usize = self.count_parts();
                proof {
                    lemma_part(all, n as nat, at as nat);
                }
                if failed {
                    let found = take_part(&self.current, n, at);
                    self.current = found.points;
                    self.grain = 2;
                    self.begin();
                } else if at + 1 < n {
                    self.stage = Stage::Part { at: at + 1 };
                } else {
                    self.seek_rest(0);
                    assert forall|fails: Verdict| fails(start.next()) == failed implies {
                        let before = #[trigger] start.pending(fails);
                        let after = self.pending(fails);
                        before.0 == after.0 && before.1 == after.1 + 1
                    } by {
                        assert(failing_part(fails, all, n as nat, (at + 1) as nat) == (-1int, 0nat));
                    }
                }
            },
            Stage::Rest { at } => {
                let n: usize = self.count_parts();
                proof {
                    lemma_without(all, n as nat, at as nat);
                }
                if failed {
                    let found = self.rest_without(at);
                    self.current = found.points;
                    self.grain = if self.grain > 3 {
                        self.grain - 1
                    } else {
                        2
                    };
                    self.begin();
                } else {
                    self.seek_rest(at + 1);
                }
            },
            Stage::Done => {},
        }
    }
}

/// Whether a closure may give this answer about these points.
pub open spec fn may_say<F: FnMut(&FaultSchedule) -> bool>(
    fails: F,
    points: Seq<PointModel>,
    failed: bool,
) -> bool {
    exists|s: &FaultSchedule| s@ == points && #[trigger] call_ensures(fails, (s,), failed)
}

/// Whether a closure never gives both answers about the same points.
pub open spec fn steady<F: FnMut(&FaultSchedule) -> bool>(fails: F) -> bool {
    forall|p: Seq<PointModel>|
        !(#[trigger] may_say(fails, p, true) && #[trigger] may_say(fails, p, false))
}

/// Reduce `schedule` to a minimal part of it that still satisfies `fails`.
///
/// `fails` is meant to be deterministic: then the result is exactly what
/// `ddmin` gives. A schedule that does not fail is returned as it is.
pub fn shrink<F>(schedule: &FaultSchedule, mut fails: F) -> (r: Shrunk)
    where F: FnMut(&FaultSchedule) -> bool
    requires
        forall|s: &FaultSchedule| #[trigger] call_requires(fails, (s,)),
    ensures
        r.started_with == schedule@.len(),
        sublist(r.schedule@, schedule@),
        may_say(fails, r.schedule@, true) || (r.schedule@ == schedule@ && r.evaluations == 1
            && may_say(fails, schedule@, false)),
        steady(fails) ==> {
            let out = minimal(|p: Seq<PointModel>| may_say(fails, p, true), schedule@);
            r.schedule@ == out.0 && r.evaluations == capped(out.1)
        },
        steady(fails) && may_say(fails, schedule@, true) && (r.schedule@.len() >= 2 || !may_say(
            fails,
            seq![],
            true,
        )) ==> forall|i: int|
            0 <= i < r.schedule@.len() ==> !may_say(fails, #[trigger] r.schedule@.remove(i), true),
{
    let ghost asked = fails;
    let ghost verdict = |p: Seq<PointModel>| may_say(asked, p, true);
    let mut reduction = Reduction::new(schedule);
    let mut evaluations: usize = 0;
    proof {
        lemma_sublist_self(schedule@);
    }
    loop
        invariant_except_break
            fails == asked,
            reduction.well_formed(),
        invariant
            verdict == (|p: Seq<PointModel>| may_say(asked, p, true)),
            forall|s: &FaultSchedule| #[trigger] call_requires(fails, (s,)),
            sublist(reduction.points(), schedule@),
            reduction.stage == Stage::Whole ==> evaluations == 0 && reduction.points()
                == schedule@,
            reduction.stage != Stage::Whole ==> may_say(asked, reduction.points(), true) || (
            reduction.points() == schedule@ && evaluations == 1 && reduction.stage == Stage::Done
                && may_say(asked, schedule@, false)),
            steady(asked) ==> {
                let out = minimal(verdict, schedule@);
                let rest = reduction.pending(verdict);
                &&& out.0 == rest.0
                &&& capped(out.1) == capped((evaluations + rest.1) as nat)
            },
        ensures
            reduction.stage == Stage::Done,
        decreases
            reduction.effort().0,
            reduction.effort().1,
            reduction.effort().2,
            reduction.effort().3,
    {
        match reduction.candidate() {
            None => {
                break;
            },
            Some(candidate) => {
                let ghost before = reduction;
                let failed = fails(&candidate);
                proof {
                    assert(may_say(asked, candidate@, failed));
                    if steady(asked) {
                        assert(!(may_say(asked, candidate@, true) && may_say(
                            asked,
                            candidate@,
                            false,
                        )));
                        assert(verdict(candidate@) == failed);
                    }
                }
                evaluations = count_up(evaluations);
                reduction.answer(failed);
                proof {
                    if failed {
                        lemma_sublist_transitive(candidate@, before.points(), schedule@);
                    }
                    assert(before.pending(verdict) == before.pending(verdict));
                }
            },
        }
    }
    proof {
        if steady(asked) && verdict(schedule@) && (reduction.points().len() >= 2 || !verdict(
            seq![],
        )) {
            assert(reduction.points() == ddmin(verdict, schedule@, 2).0);
            assert forall|i: int| 0 <= i < reduction.points().len() implies !may_say(
                asked,
                #[trigger] reduction.points().remove(i),
                true,
            ) by {
                lemma_one_minimal(verdict, schedule@, 2, i);
                assert(!verdict(reduction.points().remove(i)));
            }
        }
    }
    Shrunk {
        schedule: FaultSchedule::of(reduction.current),
        started_with: schedule.len(),
        evaluations,
    }
}

} // verus!
