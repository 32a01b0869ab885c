//! Every order in which concurrent calls can complete.
//!
//! Instead of shuffling a batch and hoping, all of its orders are run. Beyond
//! seven calls there are too many, and a sample is run instead, which the
//! report says.

use crate::cas::{keeps, Cas, Contents};
use crate::event::{Event, EventModel};
use crate::explore::{
    batch_starts, batches, behaviour, behaviour_of, first_difference_at, lemma_may_do_later,
    may_branch, may_do, may_end, probe, run_branch, Asking,
};
use crate::fault::{
    copy_sizes, exchanged, is_order, permutation_of, unchanged, Fault, FaultModel, FaultPoint,
    FaultSchedule, PointModel,
};
use crate::model::views;
use crate::replay::Effects;
use crate::replayer::{branch_of, counted, ReplayState, Replayer, Step};
use crate::shrink::capped;
use crate::text::{decimal, show, show_size, texts};
use crate::trace::{Trace, TraceModel};
use vstd::prelude::*;

verus! {

// ---------------------------------------------------------------------------
// All orders
// ---------------------------------------------------------------------------

/// How many orders `n` things have.
pub open spec fn factorial(n: nat) -> nat
    decreases n,
{
    if n == 0 {
        1
    } else {
        n * factorial((n - 1) as nat)
    }
}

/// All orders of the first `n` indices, with the one that changes nothing
/// first: each order of one index fewer, with the last index in each place
/// from the last to the first.
pub open spec fn orders(n: nat) -> Seq<Seq<usize>>
    decreases n,
{
    if n == 0 {
        seq![seq![]]
    } else {
        let fewer = orders((n - 1) as nat);
        Seq::new(
            n * fewer.len(),
            |m: int| fewer[m / n as int].insert(n - 1 - m % n as int, (n - 1) as usize),
        )
    }
}

/// There are as many orders as the factorial says.
pub proof fn lemma_orders_count(n: nat)
    ensures
        orders(n).len() == factorial(n),
        factorial(n) >= 1,
    decreases n,
{
    if n > 0 {
        lemma_orders_count((n - 1) as nat);
        let f = factorial((n - 1) as nat);
        assert(n * f >= 1) by (nonlinear_arith)
            requires
                n >= 1,
                f >= 1,
        ;
    }
}

proof fn lemma_index(m: int, n: int, len: int)
    requires
        n > 0,
        0 <= m < n * len,
    ensures
        0 <= m / n < len,
        0 <= m % n < n,
        m == n * (m / n) + m % n,
{
    assert(0 <= m / n < len && 0 <= m % n < n && m == n * (m / n) + m % n) by (nonlinear_arith)
        requires
            n > 0,
            0 <= m < n * len,
    ;
}

/// Each of the orders is one.
pub proof fn lemma_orders_sound(n: nat, m: int)
    requires
        n <= usize::MAX,
        0 <= m < orders(n).len(),
    ensures
        is_order(orders(n)[m], n),
    decreases n,
{
    if n > 0 {
        let fewer = orders((n - 1) as nat);
        lemma_index(m, n as int, fewer.len() as int);
        let p = fewer[m / n as int];
        let at: int = n - 1 - m % n as int;
        lemma_orders_sound((n - 1) as nat, m / n as int);
        let out = p.insert(at, (n - 1) as usize);
        assert(orders(n)[m] == out);
        assert forall|i: int| 0 <= i < out.len() implies (#[trigger] out[i]) < n by {
            if i < at {
                assert(out[i] == p[i]);
            } else if i > at {
                assert(out[i] == p[i - 1]);
            }
        }
        assert forall|i: int, j: int| 0 <= i < j < out.len() implies out[i] != out[j] by {
            let i1 = if i < at { i } else { i - 1 };
            let j1 = if j < at { j } else { j - 1 };
            if i != at {
                assert(out[i] == p[i1]);
            }
            if j != at {
                assert(out[j] == p[j1]);
            }
        }
    }
}

/// Every order is among them.
pub proof fn lemma_orders_complete(order: Seq<usize>, n: nat)
    requires
        n <= usize::MAX,
        is_order(order, n),
    ensures
        orders(n).contains(order),
    decreases n,
{
    if n == 0 {
        assert(order =~= seq![]);
        assert(orders(0)[0] == order);
    } else {
        let at = lemma_order_hits(order, n, (n - 1) as usize);
        let p = order.remove(at);
        assert forall|i: int| 0 <= i < p.len() implies (#[trigger] p[i]) < n - 1 by {
            let i1 = if i < at { i } else { i + 1 };
            assert(p[i] == order[i1]);
            assert(order[i1] != order[at]);
            assert(order[i1] < n);
        }
        assert forall|i: int, j: int| 0 <= i < j < p.len() implies p[i] != p[j] by {
            let i1 = if i < at { i } else { i + 1 };
            let j1 = if j < at { j } else { j + 1 };
            assert(p[i] == order[i1]);
            assert(p[j] == order[j1]);
        }
        lemma_orders_complete(p, (n - 1) as nat);
        let fewer = orders((n - 1) as nat);
        let q = choose|q: int| 0 <= q < fewer.len() && fewer[q] == p;
        let k: int = n - 1 - at;
        let m: int = q * n + k;
        let len: int = fewer.len() as int;
        let w: int = n as int;
        assert(0 <= m < w * len && m / w == q && m % w == k) by (nonlinear_arith)
            requires
                m == q * w + k,
                0 <= q < len,
                0 <= k < w,
        ;
        assert(p.insert(at, (n - 1) as usize) =~= order);
        assert(orders(n)[m] == order);
    }
}

/// An order names every index.
pub proof fn lemma_order_hits(order: Seq<usize>, n: nat, x: usize) -> (at: int)
    requires
        n <= usize::MAX,
        is_order(order, n),
        x < n,
    ensures
        0 <= at < n,
        order[at] == x,
{
    if !order.contains(x) {
        let all = Set::new(|v: usize| v < n && v != x);
        let seen = order.to_set();
        order.unique_seq_to_set();
        lemma_below(n, x);
        assert forall|v: usize| seen.contains(v) implies all.contains(v) by {
            let i = choose|i: int| 0 <= i < order.len() && order[i] == v;
            assert(order[i] < n);
        }
        vstd::set_lib::lemma_len_subset(seen, all);
    }
    choose|at: int| 0 <= at < order.len() && order[at] == x
}

/// There are fewer than `n` numbers below `n` that are not `x`.
proof fn lemma_below(n: nat, x: usize)
    requires
        x < n,
        n <= usize::MAX,
    ensures
        Set::new(|v: usize| v < n && v != x).finite(),
        Set::new(|v: usize| v < n && v != x).len() == n - 1,
{
    let list = Seq::new((n - 1) as nat, |i: int| if i < x { i as usize } else { (i + 1) as usize });
    let all = Set::new(|v: usize| v < n && v != x);
    assert(list.no_duplicates());
    list.unique_seq_to_set();
    assert forall|v: usize| all.contains(v) implies list.to_set().contains(v) by {
        let at: int = if v < x { v as int } else { v - 1 };
        assert(list[at] == v);
    }
    assert forall|v: usize| list.to_set().contains(v) implies all.contains(v) by {
        let i = choose|i: int| 0 <= i < list.len() && list[i] == v;
        assert(list[i] == v);
    }
    assert(list.to_set() =~= all);
}

/// No order comes twice.
pub proof fn lemma_orders_distinct(n: nat, a: int, b: int)
    requires
        n <= usize::MAX,
        0 <= a < b < orders(n).len(),
    ensures
        orders(n)[a] != orders(n)[b],
    decreases n,
{
    if n > 0 {
        let fewer = orders((n - 1) as nat);
        let w: int = n as int;
        lemma_index(a, w, fewer.len() as int);
        lemma_index(b, w, fewer.len() as int);
        let p = fewer[a / w];
        let q = fewer[b / w];
        let i: int = w - 1 - a % w;
        let j: int = w - 1 - b % w;
        let x = (n - 1) as usize;
        lemma_orders_sound((n - 1) as nat, a / w);
        lemma_orders_sound((n - 1) as nat, b / w);
        let one = p.insert(i, x);
        let other = q.insert(j, x);
        if one == other {
            assert(one[i] == x);
            assert(other[j] == x);
            if i < j {
                assert(other[i] == q[i]);
            }
            if j < i {
                assert(one[j] == p[j]);
            }
            assert(i == j);
            assert(one.remove(i) =~= p);
            assert(other.remove(j) =~= q);
            if a / w < b / w {
                lemma_orders_distinct((n - 1) as nat, a / w, b / w);
            } else if b / w < a / w {
                lemma_orders_distinct((n - 1) as nat, b / w, a / w);
            }
        }
    }
}

/// The first of the orders changes nothing.
pub proof fn lemma_orders_first(n: nat)
    requires
        n <= usize::MAX,
    ensures
        orders(n).len() > 0,
        orders(n)[0] == unchanged(n),
    decreases n,
{
    lemma_orders_count(n);
    if n == 0 {
        assert(orders(0)[0] =~= unchanged(0));
    } else {
        lemma_orders_first((n - 1) as nat);
        let fewer = orders((n - 1) as nat);
        let w: int = n as int;
        assert(0int / w == 0 && 0int % w == 0) by (nonlinear_arith)
            requires
                w > 0,
        ;
        assert(orders(n)[0] =~= unchanged(n));
    }
}

/// The lists that some vectors hold.
pub open spec fn lists(v: Seq<Vec<usize>>) -> Seq<Seq<usize>> {
    Seq::new(v.len(), |i: int| v[i]@)
}

/// An order with one more index, in place `at`.
fn insert_index(order: &Vec<usize>, at: usize, x: usize) -> (r: Vec<usize>)
    requires
        at <= order@.len(),
    ensures
        r@ == order@.insert(at as int, x),
{
    let mut out: Vec<usize> = copy_sizes(order);
    out.insert(at, x);
    out
}

/// The widest batch of which all orders are run.
pub const MAX_EXHAUSTIVE: usize = 7;

/// All orders of the first `n` indices.
pub fn all_orders(n: usize) -> (r: Vec<Vec<usize>>)
    requires
        n <= MAX_EXHAUSTIVE,
    ensures
        lists(r@) == orders(n as nat),
{
    let mut done: Vec<Vec<usize>> = Vec::new();
    done.push(Vec::new());
    assert(lists(done@) =~= orders(0)) by {
        assert(lists(done@)[0] =~= seq![]);
    }
    let mut k: usize = 0;
    while k < n
        invariant
            k <= n <= MAX_EXHAUSTIVE,
            lists(done@) == orders(k as nat),
        decreases n - k,
    {
        let w: usize = k + 1;
        let ghost fewer = orders(k as nat);
        let ghost wanted = orders(w as nat);
        let mut next: Vec<Vec<usize>> = Vec::new();
        let mut q: usize = 0;
        assert(fewer.len() == done@.len());
        while q < done.len()
            invariant
                k < n <= MAX_EXHAUSTIVE,
                w == k + 1,
                q <= done@.len(),
                fewer == orders(k as nat),
                lists(done@) == fewer,
                fewer.len() == done@.len(),
                wanted == orders(w as nat),
                next@.len() == q * w,
                forall|i: int| 0 <= i < next@.len() ==> (#[trigger] next@[i])@ == wanted[i],
            decreases done@.len() - q,
        {
            let mut j: usize = 0;
            while j < w
                invariant
                    k < n <= MAX_EXHAUSTIVE,
                    w == k + 1,
                    q < done@.len(),
                    j <= w,
                    fewer == orders(k as nat),
                    lists(done@) == fewer,
                    fewer.len() == done@.len(),
                    wanted == orders(w as nat),
                    next@.len() == q * w + j,
                    forall|i: int| 0 <= i < next@.len() ==> (#[trigger] next@[i])@ == wanted[i],
                decreases w - j,
            {
                proof {
                    lemma_orders_sound(k as nat, q as int);
                    assert(lists(done@)[q as int] == done@[q as int]@);
                    let m: int = next@.len() as int;
                    let len: int = fewer.len() as int;
                    let a: int = q as int;
                    let b: int = j as int;
                    let v: int = w as int;
                    assert(0 <= m < v * len && m / v == a && m % v == b) by (nonlinear_arith)
                        requires
                            m == a * v + b,
                            0 <= a < len,
                            0 <= b < v,
                    ;
                    assert(wanted[m] == fewer[a].insert(k - j, k));
                }
                next.push(insert_index(&done[q], k - j, k));
                j += 1;
            }
            assert((q + 1) * w == q * w + w) by (nonlinear_arith);
            q += 1;
        }
        assert(w * fewer.len() == done@.len() * w) by (nonlinear_arith)
            requires
                fewer.len() == done@.len(),
        ;
        assert(lists(next@) =~= wanted);
        done = next;
        k += 1;
    }
    done
}

/// How many orders `n` things have, as far as a number reaches.
pub open spec fn orders_total(n: nat) -> u64 {
    if factorial(n) <= u64::MAX {
        factorial(n) as u64
    } else {
        u64::MAX
    }
}

/// How many orders `n` things have, as far as a number reaches.
pub fn count_orders(n: usize) -> (r: u64)
    ensures
        r == orders_total(n as nat),
{
    let mut total: u64 = 1;
    let mut k: usize = 0;
    while k < n
        invariant
            k <= n,
            total == orders_total(k as nat),
        decreases n - k,
    {
        let ghost before = factorial(k as nat);
        let ghost w: nat = (k + 1) as nat;
        let ghost after = factorial(w);
        proof {
            assert(after == w * before);
            lemma_orders_count(k as nat);
            assert(w * before >= before) by (nonlinear_arith)
                requires
                    w >= 1,
            ;
            assert(w * before >= w) by (nonlinear_arith)
                requires
                    before >= 1,
            ;
            assert(w * before == before * w) by (nonlinear_arith);
        }
        total = match total.checked_mul(k as u64 + 1) {
            Some(product) => {
                if total == u64::MAX {
                    total
                } else {
                    product
                }
            },
            None => u64::MAX,
        };
        k += 1;
    }
    total
}

// ---------------------------------------------------------------------------
// What running them found
// ---------------------------------------------------------------------------

/// What the orders of one concurrent batch do to a run.
#[derive(Debug, PartialEq, Eq)]
pub struct Interleavings {
    pub batch: u64,
    /// How many calls the batch holds.
    pub width: usize,
    /// How many orders there are.
    pub total: u64,
    /// How many orders are known, with the recorded one.
    pub checked: usize,
    /// Whether that is all of them.
    pub exhaustive: bool,
    /// The orders under which the agent did something else.
    pub divergent: Vec<Vec<usize>>,
    /// How many neighbouring calls can be exchanged without any effect.
    pub commuting_pairs: usize,
    pub adjacent_pairs: usize,
    /// How many replays this took.
    pub replays: usize,
}

/// What a report on a batch is, for contracts.
#[verifier::ext_equal]
pub struct InterleavingsModel {
    pub batch: u64,
    pub width: usize,
    pub total: u64,
    pub checked: usize,
    pub exhaustive: bool,
    pub divergent: Seq<Seq<usize>>,
    pub commuting_pairs: usize,
    pub adjacent_pairs: usize,
    pub replays: usize,
}

impl View for Interleavings {
    type V = InterleavingsModel;

    open spec fn view(&self) -> InterleavingsModel {
        InterleavingsModel {
            batch: self.batch,
            width: self.width,
            total: self.total,
            checked: self.checked,
            exhaustive: self.exhaustive,
            divergent: lists(self.divergent@),
            commuting_pairs: self.commuting_pairs,
            adjacent_pairs: self.adjacent_pairs,
            replays: self.replays,
        }
    }
}

/// What a report on a batch claims. A sample never speaks of all orders.
pub open spec fn order_claim(i: InterleavingsModel) -> Seq<char> {
    let head = "batch #"@ + decimal(i.batch as nat);
    if i.divergent.len() == 0 {
        if i.exhaustive {
            head + " is order-independent across all "@ + decimal(i.total as nat) + " orderings"@
        } else {
            head + " showed no order dependence in "@ + decimal(i.checked as nat) + " of "@
                + decimal(i.total as nat) + " orderings \u{2014} not exhaustive"@
        }
    } else if i.exhaustive {
        head + " behaves differently under "@ + decimal(i.divergent.len()) + " of all "@ + decimal(
            i.total as nat,
        ) + " orderings"@
    } else {
        head + " behaves differently under "@ + decimal(i.divergent.len()) + " of "@ + decimal(
            i.checked as nat,
        ) + " sampled orderings"@
    }
}

impl Interleavings {
    /// Whether no order changed what the agent did.
    pub fn is_order_independent(&self) -> (r: bool)
        ensures
            r == (self@.divergent.len() == 0),
    {
        self.divergent.len() == 0
    }

    /// What was established, in a sentence.
    pub fn claim(&self) -> (r: String)
        ensures
            r@ == order_claim(self@),
    {
        let mut out = "batch #".to_owned();
        out.append(show(self.batch).as_str());
        if self.divergent.len() == 0 {
            if self.exhaustive {
                out.append(" is order-independent across all ");
                out.append(show(self.total).as_str());
                out.append(" orderings");
            } else {
                out.append(" showed no order dependence in ");
                out.append(show_size(self.checked).as_str());
                out.append(" of ");
                out.append(show(self.total).as_str());
                out.append(" orderings \u{2014} not exhaustive");
            }
        } else {
            out.append(" behaves differently under ");
            out.append(show_size(self.divergent.len()).as_str());
            if self.exhaustive {
                out.append(" of all ");
                out.append(show(self.total).as_str());
                out.append(" orderings");
            } else {
                out.append(" of ");
                out.append(show_size(self.checked).as_str());
                out.append(" sampled orderings");
            }
        }
        out
    }
}

/// How many orders of a batch are drawn where there are too many to run all.
pub const SAMPLES: usize = 200;

/// The faults that put a batch of `n` calls into the orders to run, without
/// the recorded one.
pub open spec fn arrangements(n: nat) -> Seq<FaultModel> {
    if n <= MAX_EXHAUSTIVE {
        Seq::new(
            (orders(n).len() - 1) as nat,
            |i: int| FaultModel::Exact { order: orders(n)[i + 1] },
        )
    } else {
        Seq::new(SAMPLES as nat, |i: int| FaultModel::Reorder { seed: i as u64 })
    }
}

/// The faults that exchange one call of a batch of `n` with its neighbour.
pub open spec fn neighbours(n: nat) -> Seq<FaultModel> {
    Seq::new(
        (n - 1) as nat,
        |i: int| FaultModel::Exact { order: exchanged(unchanged(n), i, i + 1) },
    )
}

/// An order that was run, and what the agent did.
pub struct Arranged {
    pub fault: FaultModel,
    pub done: Seq<Seq<char>>,
}

/// The faults of the orders that were run.
pub open spec fn faults_of(runs: Seq<Arranged>) -> Seq<FaultModel> {
    Seq::new(runs.len(), |i: int| runs[i].fault)
}

/// A schedule of one fault.
pub open spec fn only(at_seq: u64, fault: FaultModel) -> Seq<PointModel> {
    seq![PointModel { seq: at_seq, fault }]
}

/// Whether the orders of the batch that starts at a position may have been
/// run with these results.
pub open spec fn may_arrange(
    trace: TraceModel,
    first: Contents,
    at_seq: u64,
    runs: Seq<Arranged>,
    asks: Asking,
) -> bool {
    forall|i: int|
        0 <= i < runs.len() ==> may_do(
            trace,
            first,
            only(at_seq, (#[trigger] runs[i]).fault),
            runs[i].done,
            asks,
        )
}

/// The orders that made the agent do something else than usual.
pub open spec fn differing(runs: Seq<Arranged>, usual: Seq<Seq<char>>, n: nat) -> Seq<Seq<usize>>
    decreases runs.len(),
{
    if runs.len() == 0 {
        seq![]
    } else {
        let before = differing(runs.drop_last(), usual, n);
        match permutation_of(runs.last().fault, n) {
            Some(order) if runs.last().done != usual => before.push(order),
            _ => before,
        }
    }
}

/// How many of the orders left what the agent did as usual.
pub open spec fn agreeing(runs: Seq<Arranged>, usual: Seq<Seq<char>>) -> nat
    decreases runs.len(),
{
    if runs.len() == 0 {
        0
    } else {
        agreeing(runs.drop_last(), usual) + if runs.last().done == usual {
            1nat
        } else {
            0nat
        }
    }
}

/// How many events of a run belong to a batch.
pub open spec fn batch_width(events: Seq<EventModel>, batch: u64) -> nat
    decreases events.len(),
{
    if events.len() == 0 {
        0
    } else {
        batch_width(events.drop_last(), batch) + if events.last().batch == Some(batch) {
            1nat
        } else {
            0nat
        }
    }
}

/// What is reported on a batch, given what its orders made the agent do.
pub open spec fn order_report(
    baseline: Seq<EventModel>,
    batch: u64,
    runs: Seq<Arranged>,
    swapped: Seq<Arranged>,
) -> InterleavingsModel {
    let n = batch_width(baseline, batch);
    let usual = behaviour_of(baseline);
    InterleavingsModel {
        batch,
        width: n as usize,
        total: orders_total(n),
        checked: (runs.len() + 1) as usize,
        exhaustive: n <= MAX_EXHAUSTIVE,
        divergent: differing(runs, usual, n),
        commuting_pairs: agreeing(swapped, usual) as usize,
        adjacent_pairs: swapped.len() as usize,
        replays: capped((runs.len() + swapped.len()) as nat) as usize,
    }
}

/// Whether a batch may be reported on so.
pub open spec fn may_report(
    trace: TraceModel,
    first: Contents,
    baseline: Seq<EventModel>,
    start: (u64, u64),
    report: InterleavingsModel,
    asks: Asking,
) -> bool {
    let n = batch_width(baseline, start.0);
    exists|runs: Seq<Arranged>, swapped: Seq<Arranged>|
        {
            &&& #[trigger] may_arrange(trace, first, start.1, runs, asks)
            &&& #[trigger] may_arrange(trace, first, start.1, swapped, asks)
            &&& faults_of(runs) == arrangements(n)
            &&& faults_of(swapped) == neighbours(n)
            &&& report == order_report(baseline, start.0, runs, swapped)
        }
}

/// Whether the batches of a run may be reported on so.
pub open spec fn may_interleave(
    trace: TraceModel,
    first: Contents,
    reports: Seq<InterleavingsModel>,
    asks: Asking,
) -> bool {
    exists|end: ReplayState|
        {
            &&& #[trigger] may_end(trace, first, seq![], end, asks)
            &&& reports.len() == batch_starts(end.branch).len()
            &&& forall|b: int|
                0 <= b < reports.len() ==> may_report(
                    trace,
                    first,
                    end.branch,
                    batch_starts(end.branch)[b],
                    #[trigger] reports[b],
                    asks,
                )
        }
}

/// How many events of a run belong to a batch.
pub fn count_in_batch(events: &Vec<Event>, batch: u64) -> (r: usize)
    ensures
        r == batch_width(views(events@), batch),
{
    let ghost all = views(events@);
    let mut count: usize = 0;
    let mut i: usize = 0;
    while i < events.len()
        invariant
            i <= events@.len(),
            all == views(events@),
            count <= i,
            count == batch_width(all.take(i as int), batch),
        decreases events@.len() - i,
    {
        proof {
            assert(all.take(i + 1).drop_last() =~= all.take(i as int));
            assert(all.take(i + 1).last() == events@[i as int]@);
        }
        if let Some(b) = events[i].batch {
            if b == batch {
                count += 1;
            }
        }
        i += 1;
    }
    assert(all.take(i as int) =~= all);
    count
}

/// The faults that put a batch of `n` calls into the orders to run.
fn arrange(n: usize) -> (r: Vec<Fault>)
    requires
        n >= 1,
    ensures
        views(r@) == arrangements(n as nat),
{
    let mut out: Vec<Fault> = Vec::new();
    if n <= MAX_EXHAUSTIVE {
        let all = all_orders(n);
        proof {
            lemma_orders_first(n as nat);
        }
        let mut i: usize = 1;
        while i < all.len()
            invariant
                1 <= i <= all@.len(),
                n <= MAX_EXHAUSTIVE,
                lists(all@) == orders(n as nat),
                out@.len() == i - 1,
                forall|k: int| 0 <= k < i - 1 ==> (#[trigger] out@[k])@ == arrangements(n as nat)[k],
            decreases all@.len() - i,
        {
            let fault = Fault::Exact { order: copy_sizes(&all[i]) };
            assert(lists(all@)[i as int] == all@[i as int]@);
            assert(fault@ == arrangements(n as nat)[i - 1]);
            out.push(fault);
            i += 1;
        }
        assert(lists(all@).len() == all@.len());
    } else {
        let mut i: usize = 0;
        while i < SAMPLES
            invariant
                i <= SAMPLES,
                n > MAX_EXHAUSTIVE,
                out@.len() == i,
                forall|k: int| 0 <= k < i ==> (#[trigger] out@[k])@ == arrangements(n as nat)[k],
            decreases SAMPLES - i,
        {
            out.push(Fault::Reorder { seed: i as u64 });
            i += 1;
        }
    }
    assert(views(out@) =~= arrangements(n as nat));
    out
}

/// The faults that exchange one call of a batch of `n` with its neighbour.
fn exchange_neighbours(n: usize) -> (r: Vec<Fault>)
    requires
        n >= 1,
    ensures
        views(r@) == neighbours(n as nat),
{
    let mut out: Vec<Fault> = Vec::new();
    let mut i: usize = 0;
    while i < n - 1
        invariant
            n >= 1,
            i <= n - 1,
            out@.len() == i,
            forall|k: int| 0 <= k < i ==> (#[trigger] out@[k])@ == neighbours(n as nat)[k],
        decreases n - i,
    {
        let mut order = counted(n);
        order.set(i, i + 1);
        order.set(i + 1, i);
        let fault = Fault::Exact { order };
        assert(order@ =~= exchanged(unchanged(n as nat), i as int, i + 1));
        assert(fault@ == neighbours(n as nat)[i as int]);
        out.push(fault);
        i += 1;
    }
    assert(views(out@) =~= neighbours(n as nat));
    out
}

/// Which runs did something else than usual.
pub open spec fn compared(runs: Seq<Arranged>, usual: Seq<Seq<char>>) -> Seq<bool> {
    Seq::new(runs.len(), |i: int| runs[i].done != usual)
}

/// Runs a batch in some orders, and tells of each whether the agent did
/// something else than usual.
#[verifier::rlimit(30)]
fn run_orders<C, F>(
    trace: &Trace,
    cas: &mut C,
    at_seq: u64,
    faults: &Vec<Fault>,
    usual: &Vec<String>,
    drive: &mut F,
    first: Ghost<Contents>,
) -> (r: (Vec<bool>, Ghost<Seq<Arranged>>)) where C: Cas, F: FnMut(&mut Replayer<'_, C>)
    requires
        old(cas).works(),
        keeps(first@, old(cas).contents()),
        forall|x: &mut Replayer<'_, C>|
            (*x).ready() ==> #[trigger] call_requires(*old(drive), (x,)),
        forall|x: &mut Replayer<'_, C>| #[trigger]
            call_ensures(*old(drive), (x,), ()) ==> {
                &&& (*final(x)).ready()
                &&& (*final(x)).start == (*x).start
                &&& *final((*final(x)).cas) == *final((*x).cas)
            },
    ensures
        final(cas).works(),
        *final(drive) == *old(drive),
        keeps(old(cas).contents(), final(cas).contents()),
        forall|asks: Asking|
            (forall|x: &mut Replayer<'_, C>| #[trigger]
                call_ensures(*old(drive), (x,), ()) && (*x).ready() && (*x).steps@.len() == 0
                    ==> asks.contains(((*x).start@, (*final(x)).steps@))) ==> #[trigger] may_arrange(
                trace@,
                first@,
                at_seq,
                r.1@,
                asks,
            ),
        faults_of(r.1@) == views(faults@),
        r.0@ == compared(r.1@, texts(usual@)),
{
    let ghost agent = *drive;
    let mut out: Vec<bool> = Vec::new();
    let mut runs: Ghost<Seq<Arranged>> = Ghost(Seq::empty());
    let mut i: usize = 0;
    while i < faults.len()
        invariant
            *drive == agent,
            agent == *old(drive),
            cas.works(),
            keeps(old(cas).contents(), cas.contents()),
            keeps(first@, cas.contents()),
            i <= faults@.len(),
            runs@.len() == i,
            out@.len() == i,
            forall|asks: Asking|
                (forall|x: &mut Replayer<'_, C>| #[trigger]
                    call_ensures(agent, (x,), ()) && (*x).ready() && (*x).steps@.len() == 0
                        ==> asks.contains(((*x).start@, (*final(x)).steps@))) ==> #[trigger] may_arrange(
                    trace@,
                    first@,
                    at_seq,
                    runs@,
                    asks,
                ),
            forall|k: int| 0 <= k < i ==> (#[trigger] runs@[k]).fault == faults@[k]@,
            forall|k: int|
                0 <= k < i ==> (#[trigger] out@[k]) == (runs@[k].done != texts(usual@)),
            forall|x: &mut Replayer<'_, C>|
                (*x).ready() ==> #[trigger] call_requires(agent, (x,)),
            forall|x: &mut Replayer<'_, C>| #[trigger]
                call_ensures(agent, (x,), ()) ==> {
                    &&& (*final(x)).ready()
                    &&& (*final(x)).start == (*x).start
                    &&& *final((*final(x)).cas) == *final((*x).cas)
                },
        decreases faults@.len() - i,
    {
        let ghost held = cas.contents();
        let mut points: Vec<FaultPoint> = Vec::new();
        points.push(FaultPoint { seq: at_seq, fault: faults[i].clone() });
        let schedule = FaultSchedule::of(points);
        assert(schedule@ =~= only(at_seq, faults@[i as int]@));
        let done = probe(trace, cas, schedule, drive);
        proof {
            let now = Arranged { fault: faults@[i as int]@, done: texts(done@) };
            let before = runs@;
            runs@ = before.push(now);
            assert forall|asks: Asking|
                (forall|x: &mut Replayer<'_, C>| #[trigger]
                    call_ensures(agent, (x,), ()) && (*x).ready() && (*x).steps@.len() == 0
                        ==> asks.contains(((*x).start@, (*final(x)).steps@))) implies #[trigger] may_arrange(
                trace@,
                first@,
                at_seq,
                runs@,
                asks,
            ) by {
                assert(may_arrange(trace@, first@, at_seq, before, asks));
                assert(may_do(trace@, held, only(at_seq, now.fault), now.done, asks));
                lemma_may_do_later(
                    trace@,
                    first@,
                    held,
                    only(at_seq, now.fault),
                    now.done,
                    asks,
                );
                assert forall|k: int| 0 <= k < runs@.len() implies may_do(
                    trace@,
                    first@,
                    only(at_seq, (#[trigger] runs@[k]).fault),
                    runs@[k].done,
                    asks,
                ) by {
                    if k < before.len() {
                        assert(runs@[k] == before[k]);
                    }
                }
            }
        }
        let differs = first_difference_at(usual, &done).is_some();
        out.push(differs);
        i += 1;
    }
    assert(faults_of(runs@) =~= views(faults@));
    assert(out@ =~= compared(runs@, texts(usual@)));
    (out, runs)
}

/// The orders under which the agent did something else.
fn pick_divergent(
    faults: &Vec<Fault>,
    differs: &Vec<bool>,
    n: usize,
    runs: Ghost<Seq<Arranged>>,
    usual: Ghost<Seq<Seq<char>>>,
) -> (r: Vec<Vec<usize>>)
    requires
        faults_of(runs@) == views(faults@),
        differs@ == compared(runs@, usual@),
    ensures
        lists(r@) == differing(runs@, usual@, n as nat),
{
    let mut out: Vec<Vec<usize>> = Vec::new();
    let mut i: usize = 0;
    assert(faults_of(runs@).len() == faults@.len());
    assert(runs@.take(0) =~= seq![]);
    assert(lists(out@) =~= seq![]);
    while i < faults.len()
        invariant
            i <= faults@.len(),
            runs@.len() == faults@.len(),
            faults_of(runs@) == views(faults@),
            differs@ == compared(runs@, usual@),
            lists(out@) == differing(runs@.take(i as int), usual@, n as nat),
        decreases faults@.len() - i,
    {
        proof {
            assert(runs@.take(i + 1).drop_last() =~= runs@.take(i as int));
            assert(faults_of(runs@)[i as int] == views(faults@)[i as int]);
        }
        if differs[i] {
            if let Some(order) = faults[i].permutation(n) {
                let ghost before = out@;
                out.push(order);
                assert(lists(out@) =~= lists(before).push(order@));
            }
        }
        i += 1;
    }
    assert(runs@.take(i as int) =~= runs@);
    out
}

/// How many orders left what the agent did as usual.
fn count_agreeing(
    differs: &Vec<bool>,
    runs: Ghost<Seq<Arranged>>,
    usual: Ghost<Seq<Seq<char>>>,
) -> (r: usize)
    requires
        differs@ == compared(runs@, usual@),
    ensures
        r == agreeing(runs@, usual@),
{
    let mut count: usize = 0;
    let mut i: usize = 0;
    assert(differs@.len() == runs@.len());
    assert(runs@.take(0) =~= seq![]);
    while i < differs.len()
        invariant
            i <= differs@.len(),
            runs@.len() == differs@.len(),
            differs@ == compared(runs@, usual@),
            count <= i,
            count == agreeing(runs@.take(i as int), usual@),
        decreases differs@.len() - i,
    {
        assert(runs@.take(i + 1).drop_last() =~= runs@.take(i as int));
        if !differs[i] {
            count += 1;
        }
        i += 1;
    }
    assert(runs@.take(i as int) =~= runs@);
    count
}

proof fn lemma_batch_present(events: Seq<EventModel>, b: int)
    requires
        0 <= b < batch_starts(events).len(),
    ensures
        batch_width(events, batch_starts(events)[b].0) >= 1,
    decreases events.len(),
{
    let front = events.drop_last();
    if b < batch_starts(front).len() {
        lemma_batch_present(front, b);
        assert(batch_starts(events)[b] == batch_starts(front)[b]);
    }
}

/// Runs a batch of the baseline in its orders.
#[verifier::rlimit(30)]
fn report_batch<C, F>(
    trace: &Trace,
    cas: &mut C,
    baseline: &Trace,
    usual: &Vec<String>,
    start: (u64, u64),
    drive: &mut F,
    first: Ghost<Contents>,
) -> (r: Interleavings) where C: Cas, F: FnMut(&mut Replayer<'_, C>)
    requires
        old(cas).works(),
        keeps(first@, old(cas).contents()),
        texts(usual@) == behaviour_of(baseline@.events),
        batch_width(baseline@.events, start.0) >= 1,
        forall|x: &mut Replayer<'_, C>|
            (*x).ready() ==> #[trigger] call_requires(*old(drive), (x,)),
        forall|x: &mut Replayer<'_, C>| #[trigger]
            call_ensures(*old(drive), (x,), ()) ==> {
                &&& (*final(x)).ready()
                &&& (*final(x)).start == (*x).start
                &&& *final((*final(x)).cas) == *final((*x).cas)
            },
    ensures
        final(cas).works(),
        *final(drive) == *old(drive),
        keeps(old(cas).contents(), final(cas).contents()),
        forall|asks: Asking|
            (forall|x: &mut Replayer<'_, C>| #[trigger]
                call_ensures(*old(drive), (x,), ()) && (*x).ready() && (*x).steps@.len() == 0
                    ==> asks.contains(((*x).start@, (*final(x)).steps@))) ==> #[trigger] may_report(
                trace@,
                first@,
                baseline@.events,
                start,
                r@,
                asks,
            ),
{
    let width: usize = count_in_batch(&baseline.events, start.0);
    let faults = arrange(width);
    let (differs, Ghost(runs)) = run_orders(trace, cas, start.1, &faults, usual, drive, first);
    let swaps = exchange_neighbours(width);
    let (apart, Ghost(swapped)) = run_orders(trace, cas, start.1, &swaps, usual, drive, first);
    proof {
        lemma_arrangements_few(width as nat);
        assert(faults_of(runs).len() == runs.len());
        assert(faults_of(swapped).len() == swapped.len());
    }
    let out = Interleavings {
        batch: start.0,
        width,
        total: count_orders(width),
        checked: faults.len() + 1,
        exhaustive: width <= MAX_EXHAUSTIVE,
        divergent: pick_divergent(&faults, &differs, width, Ghost(runs), Ghost(texts(usual@))),
        commuting_pairs: count_agreeing(&apart, Ghost(swapped), Ghost(texts(usual@))),
        adjacent_pairs: swaps.len(),
        replays: faults.len().saturating_add(swaps.len()),
    };
    proof {
        assert(out@ =~= order_report(baseline@.events, start.0, runs, swapped));
        assert forall|asks: Asking|
            (forall|x: &mut Replayer<'_, C>| #[trigger]
                call_ensures(*old(drive), (x,), ()) && (*x).ready() && (*x).steps@.len() == 0
                    ==> asks.contains(((*x).start@, (*final(x)).steps@))) implies #[trigger] may_report(
            trace@,
            first@,
            baseline@.events,
            start,
            out@,
            asks,
        ) by {
            assert(may_arrange(trace@, first@, start.1, runs, asks));
            assert(may_arrange(trace@, first@, start.1, swapped, asks));
        }
    }
    out
}

/// There are at most a few thousand orders to run.
proof fn lemma_arrangements_few(n: nat)
    ensures
        arrangements(n).len() < 5040,
{
    if n <= MAX_EXHAUSTIVE {
        lemma_orders_count(n);
        assert(factorial(0) == 1);
        assert(factorial(1) == 1);
        assert(factorial(2) == 2);
        assert(factorial(3) == 6);
        assert(factorial(4) == 24);
        assert(factorial(5) == 120);
        assert(factorial(6) == 720);
        assert(factorial(7) == 5040);
    }
}

/// Runs every concurrent batch of a run in every order that its calls could
/// complete in, and reports which orders change what the agent does.
#[verifier::rlimit(40)]
pub fn interleavings<C, F>(trace: &Trace, cas: &mut C, drive: F) -> (r: Vec<Interleavings>)
    where C: Cas, F: FnMut(&mut Replayer<'_, C>)
    requires
        old(cas).works(),
        forall|x: &mut Replayer<'_, C>|
            (*x).ready() ==> #[trigger] call_requires(drive, (x,)),
        forall|x: &mut Replayer<'_, C>| #[trigger]
            call_ensures(drive, (x,), ()) ==> {
                &&& (*final(x)).ready()
                &&& (*final(x)).start == (*x).start
                &&& *final((*final(x)).cas) == *final((*x).cas)
            },
    ensures
        final(cas).works(),
        keeps(old(cas).contents(), final(cas).contents()),
        exists|asks: Asking|
            {
                &&& #[trigger] may_interleave(trace@, old(cas).contents(), views(r@), asks)
                &&& forall|p: (ReplayState, Seq<Step>)| #[trigger]
                    asks.contains(p) <==> exists|x: &mut Replayer<'_, C>| #[trigger]
                        call_ensures(drive, (x,), ()) && (*x).ready() && (*x).start@ == p.0
                            && (*x).steps@.len() == 0 && (*final(x)).steps@ == p.1
            },
{
    let ghost asks = Set::new(
        |p: (ReplayState, Seq<Step>)|
            exists|x: &mut Replayer<'_, C>| #[trigger]
                call_ensures(drive, (x,), ()) && (*x).ready() && (*x).start@ == p.0
                    && (*x).steps@.len() == 0 && (*final(x)).steps@ == p.1,
    );
    let mut drive = drive;
    let ghost agent = drive;
    let ghost first = cas.contents();
    let baseline = run_branch(trace, cas, FaultSchedule::empty(), "order-probe", &mut drive);
    assert(may_branch(
        trace@,
        first,
        seq![],
        "order-probe"@,
        baseline@,
        cas.contents(),
        asks,
    ));
    let ghost end = choose|end: ReplayState| #[trigger]
        may_end(trace@, first, seq![], end, asks) && baseline@ == branch_of(end, "order-probe"@);
    let usual = behaviour(&baseline);
    let starts = batches(&baseline);
    let mut out: Vec<Interleavings> = Vec::new();
    let mut b: usize = 0;
    while b < starts.len()
        invariant
            drive == agent,
            first == old(cas).contents(),
            cas.works(),
            keeps(first, cas.contents()),
            b <= starts@.len(),
            out@.len() == b,
            may_end(trace@, first, seq![], end, asks),
            baseline@.events == end.branch,
            starts@ == batch_starts(end.branch),
            texts(usual@) == behaviour_of(end.branch),
            forall|k: int|
                0 <= k < b ==> may_report(
                    trace@,
                    first,
                    end.branch,
                    starts@[k],
                    (#[trigger] out@[k])@,
                    asks,
                ),
            forall|x: &mut Replayer<'_, C>|
                (*x).ready() ==> #[trigger] call_requires(agent, (x,)),
            forall|x: &mut Replayer<'_, C>| #[trigger]
                call_ensures(agent, (x,), ()) && (*x).ready() && (*x).steps@.len() == 0
                    ==> asks.contains(((*x).start@, (*final(x)).steps@)),
            forall|x: &mut Replayer<'_, C>| #[trigger]
                call_ensures(agent, (x,), ()) ==> {
                    &&& (*final(x)).ready()
                    &&& (*final(x)).start == (*x).start
                    &&& *final((*final(x)).cas) == *final((*x).cas)
                },
        decreases starts@.len() - b,
    {
        proof {
            lemma_batch_present(end.branch, b as int);
        }
        let start: (u64, u64) = starts[b];
        let report = report_batch(
            trace,
            cas,
            &baseline,
            &usual,
            start,
            &mut drive,
            Ghost(first),
        );
        assert(may_report(trace@, first, end.branch, start, report@, asks));
        out.push(report);
        b += 1;
    }
    assert forall|k: int| 0 <= k < views(out@).len() implies may_report(
        trace@,
        first,
        end.branch,
        batch_starts(end.branch)[k],
        #[trigger] views(out@)[k],
        asks,
    ) by {
        assert(views(out@)[k] == out@[k]@);
    }
    assert(may_interleave(trace@, first, views(out@), asks));
    out
}

} // verus!
