//! Faults, fault schedules, and their generation from a seed.
//!
//! A schedule is a list of positions with the fault to inject at each,
//! generated from one number, so that number is a whole bug report. The list
//! is flat because shrinking works by deleting parts of it.

use crate::event::{EffectKind, Outcome, OutcomeModel};
use crate::json::{ordered, printed, Json, JsonModel};
use crate::model::views;
use crate::rng::{drawn_size, drawn_u32, drawn_u64, moved, seeded, Rng, RngModel};
use crate::text::{cut, cut_at, decimal, joined, show, show_size, texts};
use vstd::prelude::*;

verus! {

/// A single perturbation.
#[derive(Debug, PartialEq, Eq)]
pub enum Fault {
    /// The call never returns.
    Timeout,
    /// The call returns a provider error with this code.
    Error { code: String },
    /// The response is cut short after `keep` bytes.
    Truncate { keep: usize },
    /// The transport delivers the same result twice.
    Duplicate,
    /// The result is no JSON.
    Malformed,
    /// The result is correct but arrives `ms` later.
    Delay { ms: u64 },
    /// The calls of a batch complete in an order drawn from `seed`.
    Reorder { seed: u64 },
    /// The calls of a batch complete in exactly this order.
    Exact { order: Vec<usize> },
}

/// What a fault is, for contracts.
pub enum FaultModel {
    Timeout,
    Error { code: Seq<char> },
    Truncate { keep: usize },
    Duplicate,
    Malformed,
    Delay { ms: u64 },
    Reorder { seed: u64 },
    Exact { order: Seq<usize> },
}

impl View for Fault {
    type V = FaultModel;

    open spec fn view(&self) -> FaultModel {
        match *self {
            Fault::Timeout => FaultModel::Timeout,
            Fault::Error { code } => FaultModel::Error { code: code@ },
            Fault::Truncate { keep } => FaultModel::Truncate { keep },
            Fault::Duplicate => FaultModel::Duplicate,
            Fault::Malformed => FaultModel::Malformed,
            Fault::Delay { ms } => FaultModel::Delay { ms },
            Fault::Reorder { seed } => FaultModel::Reorder { seed },
            Fault::Exact { order } => FaultModel::Exact { order: order@ },
        }
    }
}

/// A copy of a list of sizes.
pub fn copy_sizes(list: &Vec<usize>) -> (r: Vec<usize>)
    ensures
        r@ == list@,
{
    let mut out: Vec<usize> = Vec::new();
    let mut i: usize = 0;
    while i < list.len()
        invariant
            i <= list@.len(),
            out@ == list@.take(i as int),
        decreases list@.len() - i,
    {
        out.push(list[i]);
        assert(list@.take(i + 1) =~= list@.take(i as int).push(list@[i as int]));
        i += 1;
    }
    assert(list@.take(i as int) =~= list@);
    out
}

impl Clone for Fault {
    fn clone(&self) -> (r: Self)
        ensures
            r@ == self@,
    {
        match self {
            Fault::Timeout => Fault::Timeout,
            Fault::Error { code } => Fault::Error { code: code.clone() },
            Fault::Truncate { keep } => Fault::Truncate { keep: *keep },
            Fault::Duplicate => Fault::Duplicate,
            Fault::Malformed => Fault::Malformed,
            Fault::Delay { ms } => Fault::Delay { ms: *ms },
            Fault::Reorder { seed } => Fault::Reorder { seed: *seed },
            Fault::Exact { order } => Fault::Exact { order: copy_sizes(order) },
        }
    }
}

/// The decimal texts of a list of sizes.
pub open spec fn decimals(list: Seq<usize>) -> Seq<Seq<char>> {
    Seq::new(list.len(), |i: int| decimal(list[i] as nat))
}

/// The short label of a fault.
pub open spec fn label_of(f: FaultModel) -> Seq<char> {
    match f {
        FaultModel::Timeout => "timeout"@,
        FaultModel::Error { code } => "error("@ + code + ")"@,
        FaultModel::Truncate { keep } => "truncate("@ + decimal(keep as nat) + "B)"@,
        FaultModel::Duplicate => "duplicate"@,
        FaultModel::Malformed => "malformed"@,
        FaultModel::Delay { ms } => "delay("@ + decimal(ms as nat) + "ms)"@,
        FaultModel::Reorder { seed } => "reorder("@ + decimal(seed as nat) + ")"@,
        FaultModel::Exact { order } => "order("@ + joined(decimals(order), ","@) + ")"@,
    }
}

/// Whether a fault changes the order of a batch rather than an outcome.
pub open spec fn scheduling(f: FaultModel) -> bool {
    f is Reorder || f is Exact
}

/// Whether a fault can be injected into an effect of this kind.
pub open spec fn faultable(kind: EffectKind) -> bool {
    kind == EffectKind::Model || kind == EffectKind::Tool
}

/// What the agent observes of an outcome under a fault.
pub open spec fn applied(f: FaultModel, observed: OutcomeModel) -> OutcomeModel {
    match f {
        FaultModel::Timeout => OutcomeModel::Failure {
            code: "timeout"@,
            message: "samsara: injected timeout"@,
        },
        FaultModel::Error { code } => OutcomeModel::Failure {
            code,
            message: "samsara: injected error "@ + code,
        },
        FaultModel::Malformed => OutcomeModel::Success {
            value: JsonModel::Text("{\"truncated\": tru"@),
        },
        FaultModel::Truncate { keep } => match observed {
            OutcomeModel::Success { value } => OutcomeModel::Success {
                value: JsonModel::Text(cut(printed(ordered(value)), keep as nat)),
            },
            OutcomeModel::Failure { .. } => observed,
        },
        _ => observed,
    }
}

impl Fault {
    /// Short label for reports.
    pub fn label(&self) -> (r: String)
        ensures
            r@ == label_of(self@),
    {
        match self {
            Fault::Timeout => "timeout".to_owned(),
            Fault::Error { code } => {
                let mut out = "error(".to_owned();
                out.append(code.as_str());
                out.append(")");
                out
            },
            Fault::Truncate { keep } => {
                let mut out = "truncate(".to_owned();
                out.append(show_size(*keep).as_str());
                out.append("B)");
                out
            },
            Fault::Duplicate => "duplicate".to_owned(),
            Fault::Malformed => "malformed".to_owned(),
            Fault::Delay { ms } => {
                let mut out = "delay(".to_owned();
                out.append(show(*ms).as_str());
                out.append("ms)");
                out
            },
            Fault::Reorder { seed } => {
                let mut out = "reorder(".to_owned();
                out.append(show(*seed).as_str());
                out.append(")");
                out
            },
            Fault::Exact { order } => {
                let mut names: Vec<String> = Vec::new();
                let mut i: usize = 0;
                while i < order.len()
                    invariant
                        i <= order@.len(),
                        names@.len() == i,
                        forall|j: int|
                            0 <= j < i ==> (#[trigger] names@[j])@ == decimal(order@[j] as nat),
                    decreases order@.len() - i,
                {
                    names.push(show_size(order[i]));
                    i += 1;
                }
                assert(texts(names@) =~= decimals(order@));
                let mut out = "order(".to_owned();
                out.append(crate::text::join(&names, ",").as_str());
                out.append(")");
                out
            },
        }
    }

    /// Whether this fault changes the order of a batch rather than an outcome.
    pub fn is_scheduling(&self) -> (r: bool)
        ensures
            r == scheduling(self@),
    {
        match self {
            Fault::Reorder { .. } => true,
            Fault::Exact { .. } => true,
            _ => false,
        }
    }

    /// Which effect kinds this fault makes sense against. Clock reads and
    /// random draws are always replayed as recorded: changing them would make
    /// a different run, not a faulted one.
    pub fn applies_to(&self, kind: EffectKind) -> (r: bool)
        ensures
            r == faultable(kind),
    {
        match kind {
            EffectKind::Clock => false,
            EffectKind::Random => false,
            EffectKind::Model => true,
            EffectKind::Tool => true,
        }
    }

    /// Apply this fault to an outcome, giving what the agent will observe.
    pub fn apply(&self, observed: &Outcome) -> (r: Outcome)
        ensures
            r@ == applied(self@, observed@),
    {
        match self {
            Fault::Timeout => Outcome::err("timeout", "samsara: injected timeout"),
            Fault::Error { code } => {
                let mut message = "samsara: injected error ".to_owned();
                message.append(code.as_str());
                Outcome::Failure { code: code.clone(), message }
            },
            Fault::Malformed => Outcome::Success { value: Json::text("{\"truncated\": tru") },
            Fault::Truncate { keep } => match observed {
                Outcome::Success { value } => {
                    let whole = value.ordered();
                    proof {
                        crate::json::lemma_ordered_tidy(value@);
                    }
                    let text = whole.print();
                    Outcome::Success { value: Json::text(cut_at(text.as_str(), *keep)) }
                },
                Outcome::Failure { .. } => observed.clone(),
            },
            _ => observed.clone(),
        }
    }
}

// ---------------------------------------------------------------------------
// Orders
// ---------------------------------------------------------------------------

/// Whether an order names each of the first `n` indices exactly once.
pub open spec fn is_order(order: Seq<usize>, n: nat) -> bool {
    &&& order.len() == n
    &&& order.no_duplicates()
    &&& forall|i: int| 0 <= i < order.len() ==> (#[trigger] order[i]) < n
}

/// The order that changes nothing.
pub open spec fn unchanged(n: nat) -> Seq<usize> {
    Seq::new(n, |i: int| i as usize)
}

/// A list with two places exchanged.
pub open spec fn exchanged(order: Seq<usize>, i: int, j: int) -> Seq<usize> {
    order.update(i, order[j]).update(j, order[i])
}

/// Whether these are places to exchange with in a list of `n`: the `k`th is
/// for the `k`th place from the end, and names no place behind it.
pub open spec fn swaps_fit(n: nat, swaps: Seq<usize>) -> bool {
    &&& swaps.len() < n || swaps.len() == 0
    &&& forall|k: int| 0 <= k < swaps.len() ==> (#[trigger] swaps[k]) < n - k
}

/// The first `n` indices, with each place from the end backwards exchanged
/// with the place that `swaps` names for it.
pub open spec fn shuffled(n: nat, swaps: Seq<usize>) -> Seq<usize>
    decreases swaps.len(),
{
    if swaps.len() == 0 {
        unchanged(n)
    } else {
        exchanged(shuffled(n, swaps.drop_last()), n - swaps.len(), swaps.last() as int)
    }
}

/// An order that changes something: the one given, or, where that changes
/// nothing, its reverse.
pub open spec fn stirred(order: Seq<usize>) -> Seq<usize> {
    if order == unchanged(order.len()) {
        order.reverse()
    } else {
        order
    }
}

pub proof fn lemma_exchanged(order: Seq<usize>, n: nat, i: int, j: int)
    requires
        is_order(order, n),
        0 <= i < n,
        0 <= j < n,
    ensures
        is_order(exchanged(order, i, j), n),
{
    let out = exchanged(order, i, j);
    assert forall|a: int, b: int| 0 <= a < b < out.len() implies out[a] != out[b] by {
        let a1 = if a == i { j } else if a == j { i } else { a };
        let b1 = if b == i { j } else if b == j { i } else { b };
        assert(out[a] == order[a1]);
        assert(out[b] == order[b1]);
        assert(a1 != b1);
    }
}

/// Shuffling keeps each index exactly once.
pub proof fn lemma_shuffled(n: nat, swaps: Seq<usize>)
    requires
        n <= usize::MAX,
        swaps_fit(n, swaps),
    ensures
        is_order(shuffled(n, swaps), n),
    decreases swaps.len(),
{
    if swaps.len() > 0 {
        let front = swaps.drop_last();
        assert forall|k: int| 0 <= k < front.len() implies (#[trigger] front[k]) < n - k by {
            assert(swaps[k] < n - k);
        }
        lemma_shuffled(n, front);
        assert(swaps[swaps.len() - 1] < n - (swaps.len() - 1));
        lemma_exchanged(shuffled(n, front), n, n - swaps.len(), swaps.last() as int);
    }
}

/// A stirred order is still an order, and never the one that changes nothing.
pub proof fn lemma_stirred(order: Seq<usize>, n: nat)
    requires
        2 <= n <= usize::MAX,
        is_order(order, n),
    ensures
        is_order(stirred(order), n),
        exists|i: int| 0 <= i < n && (#[trigger] stirred(order)[i]) != i,
{
    if order == unchanged(n) {
        assert(stirred(order)[0] == n - 1);
    } else {
        if forall|i: int| 0 <= i < n ==> (#[trigger] order[i]) == i {
            assert(order =~= unchanged(n));
        }
        let i = choose|i: int| 0 <= i < n && (#[trigger] order[i]) != i;
        assert(stirred(order)[i] != i);
    }
}

/// `shuffled`, computed from the places to exchange with.
pub fn shuffle(n: usize, swaps: &Vec<usize>) -> (r: Vec<usize>)
    requires
        swaps_fit(n as nat, swaps@),
    ensures
        r@ == shuffled(n as nat, swaps@),
        is_order(r@, n as nat),
{
    let mut order: Vec<usize> = Vec::new();
    let mut i: usize = 0;
    while i < n
        invariant
            i <= n,
            order@ == unchanged(i as nat),
        decreases n - i,
    {
        order.push(i);
        assert(order@ =~= unchanged((i + 1) as nat));
        i += 1;
    }
    let mut k: usize = 0;
    assert(swaps@.take(0) =~= seq![]);
    while k < swaps.len()
        invariant
            k <= swaps@.len(),
            swaps_fit(n as nat, swaps@),
            order@.len() == n,
            order@ == shuffled(n as nat, swaps@.take(k as int)),
        decreases swaps@.len() - k,
    {
        assert(swaps@.take(k + 1).drop_last() =~= swaps@.take(k as int));
        let a: usize = n - (k + 1);
        let b: usize = swaps[k];
        assert(swaps@[k as int] < n - k);
        let x: usize = order[a];
        let y: usize = order[b];
        order.set(a, y);
        order.set(b, x);
        k += 1;
    }
    assert(swaps@.take(k as int) =~= swaps@);
    proof {
        lemma_shuffled(n as nat, swaps@);
    }
    order
}

/// Whether a list is an order of the first `n` indices.
pub fn check_order(order: &Vec<usize>, n: usize) -> (r: bool)
    ensures
        r == is_order(order@, n as nat),
{
    if order.len() != n {
        return false;
    }
    let mut i: usize = 0;
    while i < n
        invariant
            i <= n,
            order@.len() == n,
            forall|a: int| 0 <= a < i ==> (#[trigger] order@[a]) < n,
            forall|a: int, b: int| 0 <= a < b < i ==> order@[a] != order@[b],
        decreases n - i,
    {
        if order[i] >= n {
            assert(order@[i as int] >= n);
            return false;
        }
        let mut j: usize = 0;
        while j < i
            invariant
                j <= i < n,
                order@.len() == n,
                forall|a: int| 0 <= a < j ==> (#[trigger] order@[a]) != order@[i as int],
            decreases i - j,
        {
            if order[j] == order[i] {
                assert(order@[j as int] == order@[i as int]);
                return false;
            }
            j += 1;
        }
        i += 1;
    }
    true
}

/// The places to exchange with that a generator draws for places `i` down to
/// one: from the start of the list up to the place itself.
pub open spec fn drawn_swaps(rng: RngModel, i: nat) -> Seq<usize>
    decreases i,
{
    if i == 0 {
        seq![]
    } else {
        let d = drawn_size(rng, 0, i as usize);
        seq![d.0] + drawn_swaps(moved(rng, d.1), (i - 1) as nat)
    }
}

/// The order that a scheduling fault gives a batch of `n` calls.
pub open spec fn permutation_of(f: FaultModel, n: nat) -> Option<Seq<usize>> {
    if n < 2 {
        None
    } else {
        match f {
            FaultModel::Reorder { seed } => Some(
                stirred(shuffled(n, drawn_swaps(seeded(seed), (n - 1) as nat))),
            ),
            FaultModel::Exact { order } => if is_order(order, n) {
                Some(order)
            } else {
                None
            },
            _ => None,
        }
    }
}

/// Draws the places to exchange with for a list of `n`.
fn draw_swaps(seed: u64, n: usize) -> (r: Vec<usize>)
    requires
        n >= 2,
    ensures
        r@ == drawn_swaps(seeded(seed), (n - 1) as nat),
        swaps_fit(n as nat, r@),
{
    let mut rng = Rng::from_number(seed);
    let mut out: Vec<usize> = Vec::new();
    let mut i: usize = n - 1;
    let ghost whole = drawn_swaps(seeded(seed), (n - 1) as nat);
    assert(out@ + drawn_swaps(rng@, i as nat) =~= whole);
    while i > 0
        invariant
            i <= n - 1,
            out@.len() == n - 1 - i,
            whole == drawn_swaps(seeded(seed), (n - 1) as nat),
            out@ + drawn_swaps(rng@, i as nat) == whole,
            forall|k: int| 0 <= k < out@.len() ==> (#[trigger] out@[k]) < n - k,
        decreases i,
    {
        let ghost before = rng@;
        let ghost sofar = out@;
        let j: usize = rng.size_within(0, i);
        out.push(j);
        proof {
            let rest = drawn_swaps(rng@, (i - 1) as nat);
            assert(drawn_swaps(before, i as nat) =~= seq![j] + rest);
            assert(sofar + (seq![j] + rest) =~= out@ + rest);
        }
        i -= 1;
    }
    assert(out@ + drawn_swaps(rng@, 0) =~= out@);
    out
}

impl Fault {
    /// The order in which this fault completes a batch of `n` calls: `None`
    /// where there is nothing to permute, where the fault is about outcomes,
    /// or where an exact order is none of these calls.
    pub fn permutation(&self, n: usize) -> (r: Option<Vec<usize>>)
        ensures
            r is Some <==> permutation_of(self@, n as nat) is Some,
            r is Some ==> r->0@ == permutation_of(self@, n as nat)->0,
            r is Some ==> is_order(r->0@, n as nat),
            self@ is Reorder && r is Some ==> exists|i: int|
                0 <= i < n && (#[trigger] r->0@[i]) != i,
    {
        if n < 2 {
            return None;
        }
        match self {
            Fault::Reorder { seed } => {
                let swaps = draw_swaps(*seed, n);
                let mut order = shuffle(n, &swaps);
                let ghost first = order@;
                let mut same: bool = true;
                let mut i: usize = 0;
                while i < n
                    invariant
                        i <= n,
                        order@.len() == n,
                        same == (forall|a: int| 0 <= a < i ==> (#[trigger] order@[a]) == a),
                    decreases n - i,
                {
                    if order[i] != i {
                        same = false;
                    }
                    i += 1;
                }
                proof {
                    if same {
                        assert(order@ =~= unchanged(n as nat));
                    }
                    lemma_stirred(first, n as nat);
                }
                if same {
                    let mut k: usize = 0;
                    while k < n
                        invariant
                            k <= n,
                            order@.len() == n,
                            forall|a: int| 0 <= a < k ==> (#[trigger] order@[a]) == n - 1 - a,
                        decreases n - k,
                    {
                        order.set(k, n - 1 - k);
                        k += 1;
                    }
                    assert(order@ =~= first.reverse());
                }
                let ghost moved_one = choose|i: int|
                    0 <= i < n && (#[trigger] stirred(first)[i]) != i;
                let out = Some(order);
                assert(out->0@ == stirred(first));
                assert(out->0@[moved_one] != moved_one);
                out
            },
            Fault::Exact { order } => {
                if check_order(order, n) {
                    Some(copy_sizes(order))
                } else {
                    None
                }
            },
            _ => None,
        }
    }
}

// ---------------------------------------------------------------------------
// Schedules
// ---------------------------------------------------------------------------

/// One fault, bound to the effect it perturbs.
#[derive(Debug, PartialEq, Eq)]
pub struct FaultPoint {
    /// Position of the effect to perturb.
    pub seq: u64,
    pub fault: Fault,
}

/// What a fault point is, for contracts.
pub struct PointModel {
    pub seq: u64,
    pub fault: FaultModel,
}

impl View for FaultPoint {
    type V = PointModel;

    open spec fn view(&self) -> PointModel {
        PointModel { seq: self.seq, fault: self.fault@ }
    }
}

impl Clone for FaultPoint {
    fn clone(&self) -> (r: Self)
        ensures
            r@ == self@,
    {
        FaultPoint { seq: self.seq, fault: self.fault.clone() }
    }
}

/// An ordered list of perturbations to apply to a replay.
#[derive(Debug, PartialEq, Eq)]
pub struct FaultSchedule {
    pub points: Vec<FaultPoint>,
}

impl View for FaultSchedule {
    type V = Seq<PointModel>;

    open spec fn view(&self) -> Seq<PointModel> {
        views(self.points@)
    }
}

/// A copy of a list of fault points.
pub fn copy_points(points: &Vec<FaultPoint>) -> (r: Vec<FaultPoint>)
    ensures
        views(r@) == views(points@),
{
    let mut out: Vec<FaultPoint> = Vec::new();
    let mut i: usize = 0;
    while i < points.len()
        invariant
            i <= points@.len(),
            out@.len() == i,
            forall|j: int| 0 <= j < i ==> (#[trigger] out@[j])@ == points@[j]@,
        decreases points@.len() - i,
    {
        out.push(points[i].clone());
        i += 1;
    }
    assert(views(out@) =~= views(points@));
    out
}

impl Clone for FaultSchedule {
    fn clone(&self) -> (r: Self)
        ensures
            r@ == self@,
    {
        FaultSchedule { points: copy_points(&self.points) }
    }
}

/// The first fault that a schedule names for a position.
pub open spec fn fault_at(points: Seq<PointModel>, seq: u64) -> Option<FaultModel>
    decreases points.len(),
{
    if points.len() == 0 {
        None
    } else if points[0].seq == seq {
        Some(points[0].fault)
    } else {
        fault_at(points.skip(1), seq)
    }
}

/// The description of one point.
pub open spec fn point_label(p: PointModel) -> Seq<char> {
    "#"@ + decimal(p.seq as nat) + " "@ + label_of(p.fault)
}

/// The description of a schedule.
pub open spec fn description(points: Seq<PointModel>) -> Seq<char> {
    if points.len() == 0 {
        "(no faults)"@
    } else {
        joined(Seq::new(points.len(), |i: int| point_label(points[i])), ", "@)
    }
}

/// Whether no point of a list stands before an earlier position.
pub open spec fn by_position(points: Seq<PointModel>) -> bool {
    forall|i: int, j: int|
        0 <= i < j < points.len() ==> (#[trigger] points[i]).seq <= (#[trigger] points[j]).seq
}

/// A list with one more point, behind every point that is not beyond it.
pub open spec fn placed(points: Seq<PointModel>, p: PointModel) -> Seq<PointModel>
    decreases points.len(),
{
    if points.len() == 0 || points.last().seq <= p.seq {
        points.push(p)
    } else {
        placed(points.drop_last(), p).push(points.last())
    }
}

/// The points of a list by position, those of one position in their order.
pub open spec fn sorted_points(points: Seq<PointModel>) -> Seq<PointModel>
    decreases points.len(),
{
    if points.len() == 0 {
        seq![]
    } else {
        placed(sorted_points(points.drop_last()), points.last())
    }
}

proof fn lemma_placed_at(points: Seq<PointModel>, p: PointModel, at: int)
    requires
        0 <= at <= points.len(),
        at > 0 ==> points[at - 1].seq <= p.seq,
        forall|j: int| at <= j < points.len() ==> (#[trigger] points[j]).seq > p.seq,
    ensures
        placed(points, p) == points.insert(at, p),
    decreases points.len(),
{
    if at == points.len() {
        assert(points.insert(at, p) =~= points.push(p));
    } else {
        let front = points.drop_last();
        assert(points[points.len() - 1].seq > p.seq);
        assert forall|j: int| at <= j < front.len() implies (#[trigger] front[j]).seq > p.seq by {
            assert(points[j].seq > p.seq);
        }
        lemma_placed_at(front, p, at);
        assert(front.insert(at, p).push(points.last()) =~= points.insert(at, p));
    }
}

proof fn lemma_placed(points: Seq<PointModel>, p: PointModel)
    requires
        by_position(points),
    ensures
        by_position(placed(points, p)),
        placed(points, p).to_multiset() == points.to_multiset().insert(p),
    decreases points.len(),
{
    broadcast use vstd::seq_lib::group_to_multiset_ensures;

    let out = placed(points, p);
    if points.len() == 0 || points.last().seq <= p.seq {
        assert forall|i: int, j: int| 0 <= i < j < out.len() implies (#[trigger] out[i]).seq <= (
        #[trigger] out[j]).seq by {
            if j == points.len() && i < points.len() - 1 {
                assert(points[i].seq <= points[points.len() - 1].seq);
            }
        }
    } else {
        let front = points.drop_last();
        let last = points.last();
        assert(by_position(front)) by {
            assert forall|i: int, j: int| 0 <= i < j < front.len() implies (
            #[trigger] front[i]).seq <= (#[trigger] front[j]).seq by {
                assert(points[i].seq <= points[j].seq);
            }
        }
        lemma_placed(front, p);
        let inner = placed(front, p);
        assert(points =~= front.push(last));
        assert(out.to_multiset() =~= points.to_multiset().insert(p));
        assert forall|i: int, j: int| 0 <= i < j < out.len() implies (#[trigger] out[i]).seq <= (
        #[trigger] out[j]).seq by {
            if j == inner.len() {
                assert(inner.contains(out[i]));
                assert(inner.to_multiset().count(out[i]) > 0);
                if out[i] != p {
                    assert(front.to_multiset().count(out[i]) > 0);
                    assert(front.contains(out[i]));
                    let k = choose|k: int| 0 <= k < front.len() && front[k] == out[i];
                    assert(points[k].seq <= points[points.len() - 1].seq);
                }
            }
        }
    }
}

/// Sorting keeps the points and arranges them by position.
pub proof fn lemma_sorted_points(points: Seq<PointModel>)
    ensures
        by_position(sorted_points(points)),
        sorted_points(points).to_multiset() == points.to_multiset(),
        sorted_points(points).len() == points.len(),
    decreases points.len(),
{
    broadcast use vstd::seq_lib::group_to_multiset_ensures;

    if points.len() > 0 {
        let front = points.drop_last();
        lemma_sorted_points(front);
        lemma_placed(sorted_points(front), points.last());
        assert(points =~= front.push(points.last()));
    }
    sorted_points(points).to_multiset_ensures();
    points.to_multiset_ensures();
}

/// `sorted_points`, computed.
fn sort_points(points: Vec<FaultPoint>) -> (r: Vec<FaultPoint>)
    ensures
        views(r@) == sorted_points(views(points@)),
{
    let ghost all = views(points@);
    let mut rest = points;
    let mut out: Vec<FaultPoint> = Vec::new();
    let ghost mut done: int = 0;
    assert(all.take(0) =~= seq![]);
    assert(views(rest@) =~= all.skip(0));
    assert(views(out@) =~= sorted_points(all.take(0)));
    while rest.len() > 0
        invariant
            0 <= done <= all.len(),
            views(rest@) == all.skip(done),
            views(out@) == sorted_points(all.take(done)),
        decreases rest@.len(),
    {
        let ghost before = out@;
        let ghost left = rest@;
        assert(views(left).len() == all.skip(done).len());
        assert(views(left)[0] == left[0]@);
        assert(views(left)[0] == all[done]);
        let p = rest.remove(0);
        let mut at: usize = out.len();
        while at > 0 && out[at - 1].seq > p.seq
            invariant
                at <= out@.len(),
                forall|j: int| at <= j < out@.len() ==> (#[trigger] views(out@)[j]).seq > p.seq,
            decreases at,
        {
            at -= 1;
            assert(views(out@)[at as int].seq > p.seq);
        }
        let ghost view = p@;
        proof {
            lemma_placed_at(views(out@), p@, at as int);
        }
        out.insert(at, p);
        proof {
            assert(views(out@) =~= views(before).insert(at as int, view));
            assert(all.take(done + 1).drop_last() =~= all.take(done));
            assert(all.take(done + 1).last() == view);
            assert forall|i: int| 0 <= i < rest@.len() implies #[trigger] views(rest@)[i]
                == all.skip(done + 1)[i] by {
                assert(views(left)[i + 1] == all.skip(done)[i + 1]);
            }
            assert(views(rest@) =~= all.skip(done + 1));
            done = done + 1;
        }
    }
    assert(all.skip(done).len() == 0);
    assert(all.take(done) =~= all);
    out
}

impl FaultSchedule {
    /// The schedule without faults.
    pub fn empty() -> (r: Self)
        ensures
            r@ == Seq::<PointModel>::empty(),
    {
        let points: Vec<FaultPoint> = Vec::new();
        assert(views(points@) =~= seq![]);
        FaultSchedule { points }
    }

    /// A schedule of these points.
    pub fn of(points: Vec<FaultPoint>) -> (r: Self)
        ensures
            r.points == points,
            r@ == views(points@),
    {
        FaultSchedule { points }
    }

    /// How many faults there are.
    pub fn len(&self) -> (r: usize)
        ensures
            r == self@.len(),
    {
        self.points.len()
    }

    /// Whether there are no faults.
    pub fn is_empty(&self) -> (r: bool)
        ensures
            r == (self@.len() == 0),
    {
        self.points.is_empty()
    }

    /// The fault to apply at a position, if any. Where a position repeats, its
    /// first fault counts.
    pub fn at(&self, seq: u64) -> (r: Option<&Fault>)
        ensures
            r is Some <==> fault_at(self@, seq) is Some,
            r is Some ==> r->0@ == fault_at(self@, seq)->0,
    {
        let mut i: usize = 0;
        assert(self@.skip(0) =~= self@);
        while i < self.points.len()
            invariant
                i <= self.points@.len(),
                fault_at(self@, seq) == fault_at(self@.skip(i as int), seq),
            decreases self.points@.len() - i,
        {
            assert(self@.skip(i as int)[0] == self.points@[i as int]@);
            assert(self@.skip(i as int).skip(1) =~= self@.skip(i + 1));
            if self.points[i].seq == seq {
                return Some(&self.points[i].fault);
            }
            i += 1;
        }
        None
    }

    /// Human-readable one-liner, such as `#3 timeout, #7 error(503)`.
    pub fn describe(&self) -> (r: String)
        ensures
            r@ == description(self@),
    {
        if self.points.is_empty() {
            return "(no faults)".to_owned();
        }
        let mut names: Vec<String> = Vec::new();
        let mut i: usize = 0;
        while i < self.points.len()
            invariant
                i <= self.points@.len(),
                names@.len() == i,
                forall|j: int| 0 <= j < i ==> (#[trigger] names@[j])@ == point_label(self@[j]),
            decreases self.points@.len() - i,
        {
            let mut label = "#".to_owned();
            label.append(show(self.points[i].seq).as_str());
            label.append(" ");
            label.append(self.points[i].fault.label().as_str());
            assert(self@[i as int] == self.points@[i as int]@);
            names.push(label);
            i += 1;
        }
        assert(texts(names@) =~= Seq::new(self@.len(), |i: int| point_label(self@[i])));
        crate::text::join(&names, ", ")
    }
}

impl Default for FaultSchedule {
    fn default() -> (r: Self)
        ensures
            r@ == Seq::<PointModel>::empty(),
    {
        FaultSchedule::empty()
    }
}

// ---------------------------------------------------------------------------
// Generation
// ---------------------------------------------------------------------------

/// The numbers a fault's detail is drawn from, given the roll that chose the
/// fault, where the fault has a detail.
pub open spec fn detail_range(roll: u32) -> Option<(u64, u64)> {
    if 40 <= roll <= 59 {
        Some((0, 2))
    } else if 60 <= roll <= 74 {
        Some((0, 63))
    } else if 95 <= roll <= 97 {
        Some((100, 29_999))
    } else if roll >= 98 {
        Some((0, u64::MAX))
    } else {
        None
    }
}

/// The fault that a roll out of a hundred stands for, with its detail.
/// Timeouts are the most frequent, because they provoke retries.
pub open spec fn weighted(roll: u32, detail: u64) -> FaultModel {
    if roll <= 39 {
        FaultModel::Timeout
    } else if roll <= 59 {
        FaultModel::Error {
            code: if detail == 0 {
                "500"@
            } else if detail == 1 {
                "503"@
            } else {
                "429"@
            },
        }
    } else if roll <= 74 {
        FaultModel::Truncate { keep: detail as usize }
    } else if roll <= 84 {
        FaultModel::Duplicate
    } else if roll <= 94 {
        FaultModel::Malformed
    } else if roll <= 97 {
        FaultModel::Delay { ms: detail }
    } else {
        FaultModel::Reorder { seed: detail }
    }
}

/// The fault a generator draws, and the generator behind it.
pub open spec fn drawn_fault(rng: RngModel) -> (FaultModel, RngModel) {
    let d = drawn_u32(rng.seed, rng.at, 0, 99);
    let roll = d.0;
    let next = moved(rng, d.1);
    if 40 <= roll <= 59 {
        let c = drawn_size(next, 0, 2);
        (weighted(roll, c.0 as u64), moved(next, c.1))
    } else if 60 <= roll <= 74 {
        let c = drawn_size(next, 0, 63);
        (weighted(roll, c.0 as u64), moved(next, c.1))
    } else if 95 <= roll <= 97 {
        let c = drawn_u64(next.seed, next.at, 100, 29_999);
        (weighted(roll, c.0), moved(next, c.1))
    } else if roll >= 98 {
        let c = drawn_u64(next.seed, next.at, 0, u64::MAX);
        (weighted(roll, c.0), moved(next, c.1))
    } else {
        (weighted(roll, 0), next)
    }
}

impl Fault {
    /// The fault that a roll out of a hundred stands for, with its detail.
    pub fn of_roll(roll: u32, detail: u64) -> (r: Fault)
        requires
            roll < 100,
            detail_range(roll) matches Some(range) ==> range.0 <= detail <= range.1,
        ensures
            r@ == weighted(roll, detail),
    {
        if roll <= 39 {
            Fault::Timeout
        } else if roll <= 59 {
            let code = if detail == 0 {
                "500"
            } else if detail == 1 {
                "503"
            } else {
                "429"
            };
            Fault::Error { code: code.to_owned() }
        } else if roll <= 74 {
            Fault::Truncate { keep: detail as usize }
        } else if roll <= 84 {
            Fault::Duplicate
        } else if roll <= 94 {
            Fault::Malformed
        } else if roll <= 97 {
            Fault::Delay { ms: detail }
        } else {
            Fault::Reorder { seed: detail }
        }
    }
}

/// Draws a fault, weighted toward the ones that find bugs.
fn random_fault(rng: &mut Rng) -> (r: Fault)
    ensures
        (r@, final(rng)@) == drawn_fault(old(rng)@),
{
    let roll: u32 = rng.small_within(0, 99);
    let detail: u64 = if 40 <= roll && roll <= 59 {
        rng.size_within(0, 2) as u64
    } else if 60 <= roll && roll <= 74 {
        rng.size_within(0, 63) as u64
    } else if 95 <= roll && roll <= 97 {
        rng.long_within(100, 29_999)
    } else if roll >= 98 {
        rng.long_within(0, u64::MAX)
    } else {
        0
    };
    Fault::of_roll(roll, detail)
}

/// Whether picks out of a pool of this size are possible: each names a place
/// that is left when the earlier ones are taken out.
pub open spec fn picks_fit(pool: nat, picks: Seq<usize>) -> bool {
    &&& picks.len() <= pool
    &&& forall|k: int| 0 <= k < picks.len() ==> (#[trigger] picks[k]) < pool - k
}

/// What is left of a pool: each pick is filled up with the pool's last.
pub open spec fn pool_left(pool: Seq<u64>, picks: Seq<usize>) -> Seq<u64>
    decreases picks.len(),
{
    if picks.len() == 0 {
        pool
    } else {
        let left = pool_left(pool, picks.drop_last());
        left.update(picks.last() as int, left.last()).drop_last()
    }
}

/// What the picks take out of a pool, in turn.
pub open spec fn taken(pool: Seq<u64>, picks: Seq<usize>) -> Seq<u64>
    decreases picks.len(),
{
    if picks.len() == 0 {
        seq![]
    } else {
        let front = picks.drop_last();
        taken(pool, front).push(pool_left(pool, front)[picks.last() as int])
    }
}

/// The points that bind each fault to the position taken for it, by position.
pub open spec fn scheduled(
    pool: Seq<u64>,
    picks: Seq<usize>,
    faults: Seq<FaultModel>,
) -> Seq<PointModel> {
    let seqs = taken(pool, picks);
    sorted_points(
        Seq::new(picks.len(), |k: int| PointModel { seq: seqs[k], fault: faults[k] }),
    )
}

/// The positions of a list of points.
pub open spec fn positions(points: Seq<PointModel>) -> Seq<u64> {
    Seq::new(points.len(), |i: int| points[i].seq)
}

proof fn lemma_taken(pool: Seq<u64>, picks: Seq<usize>)
    requires
        picks_fit(pool.len(), picks),
    ensures
        pool_left(pool, picks).len() == pool.len() - picks.len(),
        taken(pool, picks).len() == picks.len(),
        forall|i: int|
            0 <= i < picks.len() ==> pool.contains(#[trigger] taken(pool, picks)[i]),
        forall|i: int|
            0 <= i < pool_left(pool, picks).len() ==> pool.contains(
                #[trigger] pool_left(pool, picks)[i],
            ),
        pool.no_duplicates() ==> {
            &&& taken(pool, picks).no_duplicates()
            &&& pool_left(pool, picks).no_duplicates()
            &&& forall|i: int, j: int|
                0 <= i < picks.len() && 0 <= j < pool.len() - picks.len() ==> (#[trigger] taken(
                    pool,
                    picks,
                )[i]) != (#[trigger] pool_left(pool, picks)[j])
        },
    decreases picks.len(),
{
    if picks.len() > 0 {
        let front = picks.drop_last();
        assert forall|k: int| 0 <= k < front.len() implies (#[trigger] front[k]) < pool.len()
            - k by {
            assert(picks[k] < pool.len() - k);
        }
        lemma_taken(pool, front);
        let n = picks.len() - 1;
        assert(picks[n] < pool.len() - n);
        let left = pool_left(pool, front);
        let p = picks.last() as int;
        let now = pool_left(pool, picks);
        let out = taken(pool, picks);
        assert forall|j: int| 0 <= j < now.len() implies now[j] == left[if j == p {
            left.len() - 1
        } else {
            j
        }] by {}
        assert forall|i: int| 0 <= i < picks.len() implies pool.contains(#[trigger] out[i]) by {
            if i < n {
                assert(out[i] == taken(pool, front)[i]);
            } else {
                assert(out[i] == left[p]);
            }
        }
        assert forall|i: int| 0 <= i < now.len() implies pool.contains(#[trigger] now[i]) by {
            let j = if i == p {
                left.len() - 1
            } else {
                i
            };
            assert(now[i] == left[j]);
        }
        if pool.no_duplicates() {
            assert forall|i: int, j: int| 0 <= i < j < out.len() implies out[i] != out[j] by {
                if j == n {
                    assert(taken(pool, front)[i] != left[p]);
                }
            }
            assert forall|i: int, j: int| 0 <= i < j < now.len() implies now[i] != now[j] by {
                let i1 = if i == p {
                    left.len() - 1
                } else {
                    i
                };
                let j1 = if j == p {
                    left.len() - 1
                } else {
                    j
                };
                assert(left[i1] != left[j1]);
            }
            assert forall|i: int, j: int|
                0 <= i < picks.len() && 0 <= j < pool.len() - picks.len() implies (
            #[trigger] out[i]) != (#[trigger] now[j]) by {
                let j1 = if j == p {
                    left.len() - 1
                } else {
                    j
                };
                assert(now[j] == left[j1]);
                if i < n {
                    assert(out[i] == taken(pool, front)[i]);
                } else {
                    assert(out[i] == left[p]);
                    assert(p != j1);
                }
            }
        }
    }
}

/// A schedule built from picks has one point for each, at positions out of
/// the pool, in order; and at different positions where the pool holds none
/// twice.
pub proof fn lemma_scheduled(pool: Seq<u64>, picks: Seq<usize>, faults: Seq<FaultModel>)
    requires
        picks_fit(pool.len(), picks),
    ensures
        scheduled(pool, picks, faults).len() == picks.len(),
        by_position(scheduled(pool, picks, faults)),
        forall|i: int|
            0 <= i < picks.len() ==> pool.contains(
                (#[trigger] scheduled(pool, picks, faults)[i]).seq,
            ),
        pool.no_duplicates() ==> positions(scheduled(pool, picks, faults)).no_duplicates(),
{
    lemma_taken(pool, picks);
    let seqs = taken(pool, picks);
    let drawn = Seq::new(
        picks.len(),
        |k: int| PointModel { seq: seqs[k], fault: faults[k] },
    );
    lemma_sorted_points(drawn);
    let out = scheduled(pool, picks, faults);
    out.to_multiset_ensures();
    drawn.to_multiset_ensures();
    assert forall|i: int| 0 <= i < picks.len() implies pool.contains((#[trigger] out[i]).seq) by {
        assert(out.contains(out[i]));
        assert(drawn.to_multiset().count(out[i]) > 0);
        assert(drawn.contains(out[i]));
        let k = choose|k: int| 0 <= k < drawn.len() && drawn[k] == out[i];
        assert(out[i].seq == seqs[k]);
    }
    if pool.no_duplicates() {
        assert(drawn.no_duplicates()) by {
            assert forall|i: int, j: int| 0 <= i < j < drawn.len() implies drawn[i]
                != drawn[j] by {
                assert(seqs[i] != seqs[j]);
            }
        }
        drawn.lemma_multiset_has_no_duplicates();
        out.lemma_multiset_has_no_duplicates_conv();
        assert forall|i: int, j: int| 0 <= i < j < out.len() implies positions(out)[i]
            != positions(out)[j] by {
            if out[i].seq == out[j].seq {
                assert(drawn.contains(out[i]) && drawn.contains(out[j])) by {
                    assert(out.contains(out[i]) && out.contains(out[j]));
                    assert(drawn.to_multiset().count(out[i]) > 0);
                    assert(drawn.to_multiset().count(out[j]) > 0);
                }
                let k = choose|k: int| 0 <= k < drawn.len() && drawn[k] == out[i];
                let l = choose|l: int| 0 <= l < drawn.len() && drawn[l] == out[j];
                assert(seqs[k] == seqs[l]);
                assert(k == l);
                assert(out[i] == out[j]);
            }
        }
    }
}

/// A schedule of the faults at the positions that the picks take out of the
/// pool of eligible positions.
pub fn schedule_picks(eligible: &[u64], picks: &Vec<usize>, faults: Vec<Fault>) -> (r:
    FaultSchedule)
    requires
        picks_fit(eligible@.len(), picks@),
        faults@.len() == picks@.len(),
    ensures
        r@ == scheduled(eligible@, picks@, views(faults@)),
{
    let mut pool: Vec<u64> = Vec::new();
    let mut i: usize = 0;
    while i < eligible.len()
        invariant
            i <= eligible@.len(),
            pool@ == eligible@.take(i as int),
        decreases eligible@.len() - i,
    {
        pool.push(eligible[i]);
        assert(eligible@.take(i + 1) =~= eligible@.take(i as int).push(eligible@[i as int]));
        i += 1;
    }
    assert(eligible@.take(i as int) =~= eligible@);
    let mut points: Vec<FaultPoint> = Vec::new();
    let mut k: usize = 0;
    assert(picks@.take(0) =~= seq![]);
    while k < picks.len()
        invariant
            k <= picks@.len(),
            picks_fit(eligible@.len(), picks@),
            faults@.len() == picks@.len(),
            pool@ == pool_left(eligible@, picks@.take(k as int)),
            pool@.len() == eligible@.len() - k,
            points@.len() == k,
            taken(eligible@, picks@.take(k as int)).len() == k,
            forall|j: int|
                0 <= j < k ==> (#[trigger] points@[j])@ == (PointModel {
                    seq: taken(eligible@, picks@.take(k as int))[j],
                    fault: faults@[j]@,
                }),
        decreases picks@.len() - k,
    {
        let ghost before = picks@.take(k as int);
        assert(picks@.take(k + 1).drop_last() =~= before);
        assert(picks@[k as int] < eligible@.len() - k);
        let seq: u64 = pool.swap_remove(picks[k]);
        assert(taken(eligible@, picks@.take(k + 1)) == taken(eligible@, before).push(seq));
        points.push(FaultPoint { seq, fault: faults[k].clone() });
        k += 1;
    }
    proof {
        assert(picks@.take(k as int) =~= picks@);
        let seqs = taken(eligible@, picks@);
        let drawn = Seq::new(
            picks@.len(),
            |k: int| PointModel { seq: seqs[k], fault: views(faults@)[k] },
        );
        assert(views(points@) =~= drawn);
    }
    FaultSchedule { points: sort_points(points) }
}

/// The generator once it has drawn `k` picks with their faults, out of a pool
/// of this size.
pub open spec fn after_draws(rng: RngModel, pool: nat, k: nat) -> RngModel
    decreases k,
{
    if k == 0 {
        rng
    } else {
        let before = after_draws(rng, pool, (k - 1) as nat);
        let d = drawn_size(before, 0, (pool - k) as usize);
        drawn_fault(moved(before, d.1)).1
    }
}

/// The picks a generator draws out of a pool of this size.
pub open spec fn drawn_picks(rng: RngModel, pool: nat, count: nat) -> Seq<usize> {
    Seq::new(
        count,
        |k: int|
            {
                let before = after_draws(rng, pool, k as nat);
                drawn_size(before, 0, (pool - k - 1) as usize).0
            },
    )
}

/// The faults a generator draws along with the picks.
pub open spec fn drawn_faults(rng: RngModel, pool: nat, count: nat) -> Seq<FaultModel> {
    Seq::new(
        count,
        |k: int|
            {
                let before = after_draws(rng, pool, k as nat);
                let d = drawn_size(before, 0, (pool - k - 1) as usize);
                drawn_fault(moved(before, d.1)).0
            },
    )
}

/// The most faults a schedule over a pool of this size may have.
pub open spec fn fault_cap(pool: nat, max_faults: nat) -> nat {
    if max_faults < pool {
        max_faults
    } else {
        pool
    }
}

/// The schedule that a seed generates over the eligible positions.
pub open spec fn generated(seed: u64, eligible: Seq<u64>, max_faults: nat) -> Seq<PointModel> {
    if eligible.len() == 0 || max_faults == 0 {
        seq![]
    } else {
        let start = seeded(seed);
        let cap = fault_cap(eligible.len(), max_faults);
        let d = drawn_size(start, 1, cap as usize);
        let rng = moved(start, d.1);
        scheduled(
            eligible,
            drawn_picks(rng, eligible.len(), d.0 as nat),
            drawn_faults(rng, eligible.len(), d.0 as nat),
        )
    }
}

impl FaultSchedule {
    /// Generate a schedule from `seed` for a run whose positions in `eligible`
    /// may be perturbed. At most `max_faults` positions are, each at most
    /// once.
    pub fn generate(seed: u64, eligible: &[u64], max_faults: usize) -> (r: Self)
        ensures
            r@ == generated(seed, eligible@, max_faults as nat),
            eligible@.len() > 0 && max_faults > 0 <==> r@.len() > 0,
            r@.len() <= fault_cap(eligible@.len(), max_faults as nat),
            by_position(r@),
            forall|i: int| 0 <= i < r@.len() ==> eligible@.contains((#[trigger] r@[i]).seq),
            eligible@.no_duplicates() ==> positions(r@).no_duplicates(),
    {
        let pool: usize = eligible.len();
        if pool == 0 || max_faults == 0 {
            return FaultSchedule::empty();
        }
        let mut rng = Rng::from_number(seed);
        let cap: usize = if max_faults < pool {
            max_faults
        } else {
            pool
        };
        let count: usize = rng.size_within(1, cap);
        let ghost start = rng@;
        let mut picks: Vec<usize> = Vec::new();
        let mut faults: Vec<Fault> = Vec::new();
        let mut k: usize = 0;
        while k < count
            invariant
                k <= count <= pool,
                pool == eligible@.len(),
                picks@.len() == k,
                faults@.len() == k,
                rng@ == after_draws(start, pool as nat, k as nat),
                picks@ == drawn_picks(start, pool as nat, k as nat),
                views(faults@) == drawn_faults(start, pool as nat, k as nat),
                forall|j: int| 0 <= j < k ==> (#[trigger] picks@[j]) < pool - j,
            decreases count - k,
        {
            let ghost before = rng@;
            let ghost old_faults = faults@;
            let idx: usize = rng.size_within(0, pool - k - 1);
            let fault = random_fault(&mut rng);
            picks.push(idx);
            faults.push(fault);
            proof {
                let d = drawn_size(before, 0, (pool - k - 1) as usize);
                assert((pool - (k + 1)) as usize == (pool - k - 1) as usize);
                assert(after_draws(start, pool as nat, (k + 1) as nat) == drawn_fault(
                    moved(before, d.1),
                ).1);
                assert(picks@ =~= drawn_picks(start, pool as nat, (k + 1) as nat));
                assert(views(faults@) =~= views(old_faults).push(fault@));
                assert(views(faults@) =~= drawn_faults(start, pool as nat, (k + 1) as nat));
            }
            k += 1;
        }
        proof {
            lemma_scheduled(eligible@, picks@, views(faults@));
        }
        schedule_picks(eligible, &picks, faults)
    }
}

} // verus!
