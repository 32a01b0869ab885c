//! Where a replay stops matching its recording, and why.

use crate::event::{kind_name, EffectKind};
use crate::hash::{has_short, short_of, Digest};
use crate::json::{
    field_index, fields_of, find_field, items_of, keys_of, lookup, Json, JsonModel, Number,
    NumberModel,
};
use crate::model::viewed;
use crate::text::{
    begins, decimal, distinct, precedes, same, show, show_size, sort_distinct, texts,
};
use vstd::prelude::*;

verus! {

/// Why a replay stopped matching its recording.
#[derive(Debug, PartialEq, Eq)]
#[allow(inconsistent_fields)]
pub enum DivergenceKind {
    /// The agent performed an effect of a different sort than recorded.
    Kind { expected: EffectKind, found: EffectKind },
    /// Same sort, different target.
    Name { expected: String, found: String },
    /// Same target, different request.
    Identity {
        expected: Digest,
        found: Digest,
        /// The first field at which the two requests differ, if known.
        first_difference: Option<String>,
    },
    /// The agent kept going after the recording ran out.
    PastEnd { recorded: u64 },
    /// The agent stopped early.
    StoppedShort { recorded: u64, performed: u64 },
}

/// What a divergence's reason is, for contracts.
#[allow(inconsistent_fields)]
pub enum DivergenceKindModel {
    Kind { expected: EffectKind, found: EffectKind },
    Name { expected: Seq<char>, found: Seq<char> },
    Identity {
        expected: Seq<char>,
        found: Seq<char>,
        first_difference: Option<Seq<char>>,
    },
    PastEnd { recorded: u64 },
    StoppedShort { recorded: u64, performed: u64 },
}

impl View for DivergenceKind {
    type V = DivergenceKindModel;

    open spec fn view(&self) -> DivergenceKindModel {
        match *self {
            DivergenceKind::Kind { expected, found } => DivergenceKindModel::Kind {
                expected,
                found,
            },
            DivergenceKind::Name { expected, found } => DivergenceKindModel::Name {
                expected: expected@,
                found: found@,
            },
            DivergenceKind::Identity { expected, found, first_difference } =>
            DivergenceKindModel::Identity {
                expected: expected@,
                found: found@,
                first_difference: viewed(first_difference),
            },
            DivergenceKind::PastEnd { recorded } => DivergenceKindModel::PastEnd { recorded },
            DivergenceKind::StoppedShort { recorded, performed } =>
            DivergenceKindModel::StoppedShort { recorded, performed },
        }
    }
}

/// A divergence, located.
#[derive(Debug, PartialEq, Eq)]
pub struct Divergence {
    pub at_seq: u64,
    pub kind: DivergenceKind,
}

/// What a divergence is, for contracts.
pub struct DivergenceModel {
    pub at_seq: u64,
    pub kind: DivergenceKindModel,
}

impl View for Divergence {
    type V = DivergenceModel;

    open spec fn view(&self) -> DivergenceModel {
        DivergenceModel { at_seq: self.at_seq, kind: self.kind@ }
    }
}

/// Whether a divergence can be reported: the digests in it have a head to
/// show.
pub open spec fn reportable(d: DivergenceModel) -> bool {
    d.kind matches DivergenceKindModel::Identity { expected, found, first_difference }
        ==> has_short(expected) && has_short(found)
}

/// The report on a divergence.
pub open spec fn divergence_report(d: DivergenceModel) -> Seq<char> {
    let at = "divergence at effect #"@ + decimal(d.at_seq as nat);
    match d.kind {
        DivergenceKindModel::Kind { expected, found } => at + ": expected a "@ + kind_name(
            expected,
        ) + " effect, agent performed a "@ + kind_name(found) + " effect"@,
        DivergenceKindModel::Name { expected, found } => at + ": expected `"@ + expected
            + "`, agent called `"@ + found + "`"@,
        DivergenceKindModel::Identity { expected, found, first_difference } => {
            let head = at + ": same call, different arguments\n  recorded "@ + short_of(expected)
                + "\n  replayed "@ + short_of(found);
            match first_difference {
                Some(d) => head + "\n  first difference at "@ + d,
                None => head,
            }
        },
        DivergenceKindModel::PastEnd { recorded } => at + ": recording holds "@ + decimal(
            recorded as nat,
        ) + " effects, agent wanted more"@,
        DivergenceKindModel::StoppedShort { recorded, performed } =>
        "divergence: agent stopped after "@ + decimal(performed as nat)
            + " effects, recording holds "@ + decimal(recorded as nat),
    }
}

impl Divergence {
    /// A report a human can act on.
    pub fn report(&self) -> (r: String)
        requires
            reportable(self@),
        ensures
            r@ == divergence_report(self@),
    {
        let mut out = "divergence at effect #".to_owned();
        out.append(show(self.at_seq).as_str());
        match &self.kind {
            DivergenceKind::Kind { expected, found } => {
                out.append(": expected a ");
                out.append(expected.as_str());
                out.append(" effect, agent performed a ");
                out.append(found.as_str());
                out.append(" effect");
                out
            },
            DivergenceKind::Name { expected, found } => {
                out.append(": expected `");
                out.append(expected.as_str());
                out.append("`, agent called `");
                out.append(found.as_str());
                out.append("`");
                out
            },
            DivergenceKind::Identity { expected, found, first_difference } => {
                out.append(": same call, different arguments\n  recorded ");
                out.append(expected.short());
                out.append("\n  replayed ");
                out.append(found.short());
                if let Some(d) = first_difference {
                    out.append("\n  first difference at ");
                    out.append(d.as_str());
                }
                out
            },
            DivergenceKind::PastEnd { recorded } => {
                out.append(": recording holds ");
                out.append(show(*recorded).as_str());
                out.append(" effects, agent wanted more");
                out
            },
            DivergenceKind::StoppedShort { recorded, performed } => {
                let mut short = "divergence: agent stopped after ".to_owned();
                short.append(show(*performed).as_str());
                short.append(" effects, recording holds ");
                short.append(show(*recorded).as_str());
                short
            },
        }
    }
}

// ---------------------------------------------------------------------------
// The first difference
// ---------------------------------------------------------------------------

/// The path of an object's field.
pub open spec fn field_path(path: Seq<char>, key: Seq<char>) -> Seq<char> {
    if path.len() == 0 {
        key
    } else {
        path + "."@ + key
    }
}

/// The path of an array's item.
pub open spec fn item_path(path: Seq<char>, i: nat) -> Seq<char> {
    path + "."@ + decimal(i)
}

/// A number with a sign only below zero: numbers of the same value are then the
/// same.
pub open spec fn unsigned_first(n: NumberModel) -> NumberModel {
    match n {
        NumberModel::Signed(v) => if v >= 0 {
            NumberModel::Unsigned(v as u64)
        } else {
            n
        },
        NumberModel::Float(t) => if t == "-0.0"@ {
            NumberModel::Float("0.0"@)
        } else {
            n
        },
        _ => n,
    }
}

/// Whether two documents that are not both objects or both arrays are equal.
pub open spec fn same_leaf(a: JsonModel, b: JsonModel) -> bool {
    match (a, b) {
        (JsonModel::Null, JsonModel::Null) => true,
        (JsonModel::Bool(x), JsonModel::Bool(y)) => x == y,
        (JsonModel::Number(x), JsonModel::Number(y)) => unsigned_first(x) == unsigned_first(y),
        (JsonModel::Text(x), JsonModel::Text(y)) => x == y,
        _ => false,
    }
}

/// The keys of two objects, once each, in order.
pub open spec fn all_keys(
    x: Seq<(Seq<char>, JsonModel)>,
    y: Seq<(Seq<char>, JsonModel)>,
) -> Seq<Seq<char>> {
    distinct(keys_of(x) + keys_of(y))
}

/// The first field at which two documents differ, as a dotted path that
/// begins with `path`, or `None` where they are equal.
pub open spec fn difference(a: JsonModel, b: JsonModel, path: Seq<char>) -> Option<Seq<char>>
    decreases a, 1nat, 0nat,
{
    match (a, b) {
        (JsonModel::Object(x), JsonModel::Object(y)) => field_difference(
            a,
            b,
            all_keys(x, y),
            0,
            path,
        ),
        (JsonModel::Array(x), JsonModel::Array(y)) => item_difference(a, b, 0, path),
        _ => if same_leaf(a, b) {
            None
        } else if path.len() == 0 {
            Some("(root)"@)
        } else {
            Some(path)
        },
    }
}

/// The first difference between two objects among their keys from the `i`th.
pub open spec fn field_difference(
    a: JsonModel,
    b: JsonModel,
    keys: Seq<Seq<char>>,
    i: nat,
    path: Seq<char>,
) -> Option<Seq<char>>
    decreases a, 0nat, keys.len() - i,
{
    if i >= keys.len() || !(a is Object) || !(b is Object) {
        None
    } else {
        let x = a->Object_0;
        let y = b->Object_0;
        let child = field_path(path, keys[i as int]);
        let at = field_index(x, keys[i as int]);
        let bt = field_index(y, keys[i as int]);
        if 0 <= at < x.len() && 0 <= bt < y.len() {
            match difference(x[at].1, y[bt].1, child) {
                Some(d) => Some(d),
                None => field_difference(a, b, keys, i + 1, path),
            }
        } else if 0 <= at < x.len() {
            Some(child + " (missing on replay)"@)
        } else {
            Some(child + " (added on replay)"@)
        }
    }
}

/// The first difference between two arrays among their items from the `i`th.
pub open spec fn item_difference(a: JsonModel, b: JsonModel, i: nat, path: Seq<char>) -> Option<
    Seq<char>,
>
    decreases a, 0nat, a->Array_0.len() + b->Array_0.len() - i,
{
    if !(a is Array) || !(b is Array) {
        None
    } else {
        let x = a->Array_0;
        let y = b->Array_0;
        if i >= x.len() && i >= y.len() {
            None
        } else {
            let child = item_path(path, i);
            if i < x.len() && i < y.len() {
                match difference(x[i as int], y[i as int], child) {
                    Some(d) => Some(d),
                    None => item_difference(a, b, i + 1, path),
                }
            } else {
                Some(
                    child + " (length "@ + decimal(x.len()) + " vs "@ + decimal(y.len()) + ")"@,
                )
            }
        }
    }
}

/// The text of a fraction, without the sign of a zero.
fn unsigned_zero(t: &str) -> (r: &str)
    ensures
        unsigned_first(NumberModel::Float(t@)) == NumberModel::Float(r@),
{
    if same(t, "-0.0") {
        "0.0"
    } else {
        t
    }
}

/// Whether two numbers are equal.
fn same_numbers(a: &Number, b: &Number) -> (r: bool)
    ensures
        r == (unsigned_first(a@) == unsigned_first(b@)),
{
    match (a, b) {
        (Number::Unsigned(x), Number::Unsigned(y)) => *x == *y,
        (Number::Signed(x), Number::Signed(y)) => *x == *y,
        (Number::Unsigned(x), Number::Signed(y)) => *y >= 0 && *x == *y as u64,
        (Number::Signed(x), Number::Unsigned(y)) => *x >= 0 && *x as u64 == *y,
        (Number::Float(x), Number::Float(y)) => same(
            unsigned_zero(x.as_str()),
            unsigned_zero(y.as_str()),
        ),
        _ => false,
    }
}

/// Whether two documents that are not both objects or both arrays are equal.
fn same_leaves(a: &Json, b: &Json) -> (r: bool)
    ensures
        r == same_leaf(a@, b@),
{
    match (a, b) {
        (Json::Null, Json::Null) => true,
        (Json::Bool(x), Json::Bool(y)) => *x == *y,
        (Json::Number(x), Json::Number(y)) => same_numbers(x, y),
        (Json::Text(x), Json::Text(y)) => same(x.as_str(), y.as_str()),
        _ => false,
    }
}

/// The keys of two objects, once each, in order.
fn keys_of_both(x: &Vec<(String, Json)>, y: &Vec<(String, Json)>) -> (r: Vec<String>)
    ensures
        texts(r@) == all_keys(fields_of(x@), fields_of(y@)),
{
    let mut names: Vec<String> = Vec::new();
    let mut i: usize = 0;
    while i < x.len()
        invariant
            i <= x@.len(),
            names@.len() == i,
            forall|j: int| 0 <= j < i ==> (#[trigger] names@[j])@ == x@[j].0@,
        decreases x@.len() - i,
    {
        names.push(x[i].0.clone());
        i += 1;
    }
    let mut i: usize = 0;
    while i < y.len()
        invariant
            i <= y@.len(),
            names@.len() == x@.len() + i,
            forall|j: int| 0 <= j < x@.len() ==> (#[trigger] names@[j])@ == x@[j].0@,
            forall|j: int|
                x@.len() <= j < x@.len() + i ==> (#[trigger] names@[j])@ == y@[j - x@.len()].0@,
        decreases y@.len() - i,
    {
        names.push(y[i].0.clone());
        i += 1;
    }
    assert(texts(names@) =~= keys_of(fields_of(x@)) + keys_of(fields_of(y@)));
    sort_distinct(names)
}

/// Locate the first differing field between two documents, as a dotted path
/// that begins with `path`. Returns `None` if they are equal.
pub fn first_difference(a: &Json, b: &Json, path: &str) -> (r: Option<String>)
    ensures
        viewed(r) == difference(a@, b@, path@),
    decreases a,
{
    match (a, b) {
        (Json::Object(x), Json::Object(y)) => {
            proof {
                crate::json::lemma_object_view(*x);
                crate::json::lemma_object_view(*y);
            }
            let keys = keys_of_both(x, y);
            let ghost names = all_keys(fields_of(x@), fields_of(y@));
            let mut i: usize = 0;
            while i < keys.len()
                invariant
                    i <= keys@.len(),
                    texts(keys@) == names,
                    *a == Json::Object(*x),
                    *b == Json::Object(*y),
                    a@ == JsonModel::Object(fields_of(x@)),
                    b@ == JsonModel::Object(fields_of(y@)),
                    difference(a@, b@, path@) == field_difference(
                        a@,
                        b@,
                        names,
                        i as nat,
                        path@,
                    ),
                decreases keys@.len() - i,
            {
                let key = keys[i].as_str();
                assert(names[i as int] == key@);
                let mut child = String::new();
                if path.is_empty() {
                    child.append(key);
                    assert(child@ =~= field_path(path@, key@));
                } else {
                    child.append(path);
                    child.append(".");
                    child.append(key);
                    assert(child@ =~= field_path(path@, key@));
                }
                match (find_field(x, key), find_field(y, key)) {
                    (Some(at), Some(bt)) => {
                        proof {
                            crate::json::lemma_field_smaller(*a, *x, at as int);
                            assert(fields_of(x@)[at as int].1 == x@[at as int].1@);
                            assert(fields_of(y@)[bt as int].1 == y@[bt as int].1@);
                        }
                        if let Some(found) = first_difference(
                            &x[at].1,
                            &y[bt].1,
                            child.as_str(),
                        ) {
                            return Some(found);
                        }
                    },
                    (Some(_), None) => {
                        child.append(" (missing on replay)");
                        return Some(child);
                    },
                    (None, _) => {
                        child.append(" (added on replay)");
                        return Some(child);
                    },
                }
                i += 1;
            }
            None
        },
        (Json::Array(x), Json::Array(y)) => {
            proof {
                crate::json::lemma_array_view(*x);
                crate::json::lemma_array_view(*y);
            }
            let mut i: usize = 0;
            while i < x.len() || i < y.len()
                invariant
                    i <= x@.len() || i <= y@.len(),
                    *a == Json::Array(*x),
                    *b == Json::Array(*y),
                    a@ == JsonModel::Array(items_of(x@)),
                    b@ == JsonModel::Array(items_of(y@)),
                    difference(a@, b@, path@) == item_difference(a@, b@, i as nat, path@),
                decreases x@.len() + y@.len() - i,
            {
                let mut child = path.to_owned();
                child.append(".");
                child.append(show_size(i).as_str());
                if i < x.len() && i < y.len() {
                    proof {
                        crate::json::lemma_item_smaller(*a, *x, i as int);
                        assert(items_of(x@)[i as int] == x@[i as int]@);
                        assert(items_of(y@)[i as int] == y@[i as int]@);
                    }
                    if let Some(found) = first_difference(&x[i], &y[i], child.as_str()) {
                        return Some(found);
                    }
                } else {
                    child.append(" (length ");
                    child.append(show_size(x.len()).as_str());
                    child.append(" vs ");
                    child.append(show_size(y.len()).as_str());
                    child.append(")");
                    return Some(child);
                }
                i += 1;
            }
            None
        },
        _ => if same_leaves(a, b) {
            None
        } else if path.is_empty() {
            Some("(root)".to_owned())
        } else {
            Some(path.to_owned())
        },
    }
}

/// Whether the fields of every object in a document are in the order of their
/// keys, without repeats, and every number that can be without a sign is.
pub open spec fn normal(m: JsonModel) -> bool
    decreases m,
{
    match m {
        JsonModel::Number(n) => unsigned_first(n) == n,
        JsonModel::Array(items) => forall|i: int|
            0 <= i < items.len() ==> normal(#[trigger] items[i]),
        JsonModel::Object(fields) => {
            &&& crate::text::is_strictly_ascending(keys_of(fields))
            &&& forall|i: int| 0 <= i < fields.len() ==> normal((#[trigger] fields[i]).1)
        },
        _ => true,
    }
}

/// No difference is found between a document and itself.
pub proof fn lemma_difference_self(a: JsonModel, path: Seq<char>)
    ensures
        difference(a, a, path) is None,
    decreases a, 1nat, 0nat,
{
    match a {
        JsonModel::Object(x) => {
            lemma_fields_self(a, all_keys(x, x), 0, path);
        },
        JsonModel::Array(x) => {
            lemma_items_self(a, 0, path);
        },
        _ => {},
    }
}

proof fn lemma_fields_self(a: JsonModel, keys: Seq<Seq<char>>, i: nat, path: Seq<char>)
    requires
        a is Object,
        keys == all_keys(a->Object_0, a->Object_0),
    ensures
        field_difference(a, a, keys, i, path) is None,
    decreases a, 0nat, keys.len() - i,
{
    if i < keys.len() {
        let x = a->Object_0;
        let key = keys[i as int];
        crate::json::lemma_field_index(x, key);
        assert(keys_of(x).contains(key)) by {
            let both = keys_of(x) + keys_of(x);
            crate::text::lemma_distinct(both);
            assert(keys.contains(key));
            assert(both.contains(key));
            let j = choose|j: int| 0 <= j < both.len() && both[j] == key;
            if j < x.len() {
                assert(keys_of(x)[j] == key);
            } else {
                assert(keys_of(x)[j - x.len()] == key);
            }
        }
        let j = choose|j: int| 0 <= j < keys_of(x).len() && keys_of(x)[j] == key;
        assert(x[j].0 == key);
        let at = field_index(x, key);
        lemma_difference_self(x[at].1, field_path(path, key));
        lemma_fields_self(a, keys, i + 1, path);
    }
}

proof fn lemma_items_self(a: JsonModel, i: nat, path: Seq<char>)
    requires
        a is Array,
    ensures
        item_difference(a, a, i, path) is None,
    decreases a, 0nat, a->Array_0.len() + a->Array_0.len() - i,
{
    if i < a->Array_0.len() {
        lemma_difference_self(a->Array_0[i as int], item_path(path, i));
        lemma_items_self(a, i + 1, path);
    }
}

/// Between documents in normal form a difference is found exactly where they
/// differ.
pub proof fn lemma_difference_found(a: JsonModel, b: JsonModel, path: Seq<char>)
    requires
        normal(a),
        normal(b),
    ensures
        difference(a, b, path) is None <==> a == b,
{
    if a == b {
        lemma_difference_self(a, path);
    } else if difference(a, b, path) is None {
        lemma_no_difference(a, b, path);
    }
}

proof fn lemma_no_difference(a: JsonModel, b: JsonModel, path: Seq<char>)
    requires
        normal(a),
        normal(b),
        difference(a, b, path) is None,
    ensures
        a == b,
    decreases a, 1nat, 0nat,
{
    match (a, b) {
        (JsonModel::Object(x), JsonModel::Object(y)) => {
            let keys = all_keys(x, y);
            lemma_no_field_difference(a, b, keys, 0, path);
            crate::text::lemma_distinct(keys_of(x) + keys_of(y));
            assert forall|key: Seq<char>| #[trigger] keys_of(x).contains(key) implies keys_of(
                y,
            ).contains(key) by {
                let j = choose|j: int| 0 <= j < keys_of(x).len() && keys_of(x)[j] == key;
                assert((keys_of(x) + keys_of(y))[j] == key);
                assert(keys.contains(key));
                let i = choose|i: int| 0 <= i < keys.len() && keys[i] == key;
                crate::json::lemma_field_index(y, keys[i]);
                assert(keys_of(y)[field_index(y, keys[i])] == key);
            }
            assert forall|key: Seq<char>| #[trigger] keys_of(y).contains(key) implies keys_of(
                x,
            ).contains(key) by {
                let j = choose|j: int| 0 <= j < keys_of(y).len() && keys_of(y)[j] == key;
                assert((keys_of(x) + keys_of(y))[x.len() + j] == key);
                assert(keys.contains(key));
                let i = choose|i: int| 0 <= i < keys.len() && keys[i] == key;
                crate::json::lemma_field_index(x, keys[i]);
                assert(keys_of(x)[field_index(x, keys[i])] == key);
            }
            crate::text::lemma_distinct_same(keys_of(x), keys_of(y));
            crate::text::lemma_distinct_idle(keys_of(x));
            crate::text::lemma_distinct_idle(keys_of(y));
            assert(keys_of(x) == keys_of(y));
            assert(x.len() == y.len()) by {
                assert(keys_of(x).len() == x.len() && keys_of(y).len() == y.len());
            }
            assert forall|i: int| 0 <= i < x.len() implies x[i] == y[i] by {
                let key = x[i].0;
                assert(keys_of(x)[i] == key);
                assert(keys_of(y)[i] == y[i].0);
                lemma_own_index(x, i);
                lemma_own_index(y, i);
                assert(keys.contains(key)) by {
                    assert((keys_of(x) + keys_of(y))[i] == key);
                }
                let k = choose|k: int| 0 <= k < keys.len() && keys[k] == key;
                assert(field_index(x, keys[k]) == i);
                assert(x[i].1 == y[i].1);
            }
            assert(x =~= y);
        },
        (JsonModel::Array(x), JsonModel::Array(y)) => {
            lemma_no_item_difference(a, b, 0, path);
            assert(x =~= y);
        },
        _ => {},
    }
}

/// Where the keys are in order, each is found at its own place.
proof fn lemma_own_index(fields: Seq<(Seq<char>, JsonModel)>, i: int)
    requires
        crate::text::is_strictly_ascending(keys_of(fields)),
        0 <= i < fields.len(),
    ensures
        field_index(fields, fields[i].0) == i,
{
    crate::json::lemma_field_index(fields, fields[i].0);
    let at = field_index(fields, fields[i].0);
    assert(keys_of(fields)[i] == fields[i].0);
    if at >= 0 && at != i {
        assert(keys_of(fields)[at] == fields[at].0);
        crate::text::lemma_precedes_asymmetric(fields[i].0, fields[i].0);
    }
}

proof fn lemma_no_field_difference(
    a: JsonModel,
    b: JsonModel,
    keys: Seq<Seq<char>>,
    i: nat,
    path: Seq<char>,
)
    requires
        a is Object,
        b is Object,
        normal(a),
        normal(b),
        field_difference(a, b, keys, i, path) is None,
    ensures
        forall|k: int|
            i <= k < keys.len() ==> {
                let at = field_index(a->Object_0, #[trigger] keys[k]);
                let bt = field_index(b->Object_0, keys[k]);
                &&& 0 <= at < a->Object_0.len()
                &&& 0 <= bt < b->Object_0.len()
                &&& a->Object_0[at].1 == b->Object_0[bt].1
            },
    decreases a, 0nat, keys.len() - i,
{
    if i < keys.len() {
        let x = a->Object_0;
        let y = b->Object_0;
        let at = field_index(x, keys[i as int]);
        let bt = field_index(y, keys[i as int]);
        crate::json::lemma_field_index(x, keys[i as int]);
        crate::json::lemma_field_index(y, keys[i as int]);
        lemma_no_difference(x[at].1, y[bt].1, field_path(path, keys[i as int]));
        lemma_no_field_difference(a, b, keys, i + 1, path);
    }
}

proof fn lemma_no_item_difference(a: JsonModel, b: JsonModel, i: nat, path: Seq<char>)
    requires
        a is Array,
        b is Array,
        normal(a),
        normal(b),
        item_difference(a, b, i, path) is None,
        i <= a->Array_0.len(),
        i <= b->Array_0.len(),
    ensures
        a->Array_0.len() == b->Array_0.len(),
        forall|k: int| i <= k < a->Array_0.len() ==> a->Array_0[k] == b->Array_0[k],
    decreases a, 0nat, a->Array_0.len() + b->Array_0.len() - i,
{
    let x = a->Array_0;
    let y = b->Array_0;
    if i < x.len() && i < y.len() {
        lemma_no_difference(x[i as int], y[i as int], item_path(path, i));
        lemma_no_item_difference(a, b, i + 1, path);
    }
}

/// Whether two documents say the same: numbers of the same value, the same
/// items in the same places, and under each key, in whatever order the keys
/// stand, documents that say the same.
pub open spec fn alike(a: JsonModel, b: JsonModel) -> bool
    decreases a,
{
    match (a, b) {
        (JsonModel::Object(x), JsonModel::Object(y)) => {
            &&& forall|key: Seq<char>|
                #![trigger lookup(x, key)]
                #![trigger lookup(y, key)]
                lookup(x, key) is Some <==> lookup(y, key) is Some
            &&& forall|i: int, j: int|
                0 <= i < x.len() && 0 <= j < y.len() && x[i].0 == y[j].0 && field_index(x, x[i].0)
                    == i && field_index(y, y[j].0) == j ==> alike(
                    (#[trigger] x[i]).1,
                    (#[trigger] y[j]).1,
                )
        },
        (JsonModel::Array(x), JsonModel::Array(y)) => x.len() == y.len() && forall|i: int|
            0 <= i < x.len() ==> alike(#[trigger] x[i], y[i]),
        _ => same_leaf(a, b),
    }
}

/// Whether two objects say the same under a key.
pub open spec fn agree_at(
    x: Seq<(Seq<char>, JsonModel)>,
    y: Seq<(Seq<char>, JsonModel)>,
    key: Seq<char>,
) -> bool {
    match (lookup(x, key), lookup(y, key)) {
        (Some(u), Some(v)) => alike(u, v),
        (None, None) => true,
        _ => false,
    }
}

/// A difference is found exactly where two documents do not say the same.
pub proof fn lemma_difference_alike(a: JsonModel, b: JsonModel, path: Seq<char>)
    ensures
        difference(a, b, path) is None <==> alike(a, b),
    decreases a, 1nat, 0nat,
{
    match (a, b) {
        (JsonModel::Object(x), JsonModel::Object(y)) => {
            let keys = all_keys(x, y);
            lemma_fields_alike(a, b, keys, 0, path);
            assert forall|key: Seq<char>| #[trigger] agree_at(x, y, key) || keys.contains(key) by {
                lemma_key_listed(x, y, key);
            }
            if forall|k: int| 0 <= k < keys.len() ==> agree_at(x, y, #[trigger] keys[k]) {
                assert forall|key: Seq<char>| #[trigger] agree_at(x, y, key) by {
                    if keys.contains(key) {
                        let k = choose|k: int| 0 <= k < keys.len() && keys[k] == key;
                        assert(agree_at(x, y, keys[k]));
                    }
                }
                assert forall|key: Seq<char>| lookup(x, key) is Some <==> lookup(
                    y,
                    key,
                ) is Some by {
                    assert(agree_at(x, y, key));
                }
                assert forall|i: int, j: int|
                    0 <= i < x.len() && 0 <= j < y.len() && x[i].0 == y[j].0 && field_index(
                        x,
                        x[i].0,
                    ) == i && field_index(y, y[j].0) == j implies alike(
                    (#[trigger] x[i]).1,
                    (#[trigger] y[j]).1,
                ) by {
                    assert(agree_at(x, y, x[i].0));
                }
            }
            if alike(a, b) {
                assert forall|k: int| 0 <= k < keys.len() implies agree_at(
                    x,
                    y,
                    #[trigger] keys[k],
                ) by {
                    crate::json::lemma_field_index(x, keys[k]);
                    crate::json::lemma_field_index(y, keys[k]);
                    assert(lookup(x, keys[k]) is Some <==> lookup(y, keys[k]) is Some);
                }
            }
        },
        (JsonModel::Array(x), JsonModel::Array(y)) => {
            lemma_items_alike(a, b, 0, path);
        },
        _ => {},
    }
}

/// A key that neither object holds is no place for them to differ; every
/// other is among the keys of both.
proof fn lemma_key_listed(
    x: Seq<(Seq<char>, JsonModel)>,
    y: Seq<(Seq<char>, JsonModel)>,
    key: Seq<char>,
)
    ensures
        all_keys(x, y).contains(key) <==> lookup(x, key) is Some || lookup(y, key) is Some,
{
    let both = keys_of(x) + keys_of(y);
    crate::text::lemma_distinct(both);
    crate::json::lemma_has_key(x, key);
    crate::json::lemma_has_key(y, key);
    assert(both.contains(key) <==> keys_of(x).contains(key) || keys_of(y).contains(key)) by {
        if keys_of(x).contains(key) {
            let i = choose|i: int| 0 <= i < keys_of(x).len() && keys_of(x)[i] == key;
            assert(both[i] == key);
        }
        if keys_of(y).contains(key) {
            let i = choose|i: int| 0 <= i < keys_of(y).len() && keys_of(y)[i] == key;
            assert(both[x.len() + i] == key);
        }
        if both.contains(key) {
            let i = choose|i: int| 0 <= i < both.len() && both[i] == key;
            if i < x.len() {
                assert(keys_of(x)[i] == key);
            } else {
                assert(keys_of(y)[i - x.len()] == key);
            }
        }
    }
}

proof fn lemma_fields_alike(
    a: JsonModel,
    b: JsonModel,
    keys: Seq<Seq<char>>,
    i: nat,
    path: Seq<char>,
)
    requires
        a is Object,
        b is Object,
        keys == all_keys(a->Object_0, b->Object_0),
    ensures
        field_difference(a, b, keys, i, path) is None <==> forall|k: int|
            i <= k < keys.len() ==> agree_at(a->Object_0, b->Object_0, #[trigger] keys[k]),
    decreases a, 0nat, keys.len() - i,
{
    if i < keys.len() {
        let x = a->Object_0;
        let y = b->Object_0;
        let key = keys[i as int];
        let at = field_index(x, key);
        let bt = field_index(y, key);
        crate::json::lemma_field_index(x, key);
        crate::json::lemma_field_index(y, key);
        lemma_key_listed(x, y, key);
        assert(keys.contains(key));
        if 0 <= at < x.len() && 0 <= bt < y.len() {
            lemma_difference_alike(x[at].1, y[bt].1, field_path(path, key));
        }
        lemma_fields_alike(a, b, keys, i + 1, path);
        assert(agree_at(x, y, keys[i as int]) <==> (0 <= at < x.len() && 0 <= bt < y.len()
            && alike(x[at].1, y[bt].1)));
    }
}

proof fn lemma_items_alike(a: JsonModel, b: JsonModel, i: nat, path: Seq<char>)
    requires
        a is Array,
        b is Array,
        i <= a->Array_0.len() || i <= b->Array_0.len(),
    ensures
        item_difference(a, b, i, path) is None <==> (a->Array_0.len() == b->Array_0.len() || (i
            >= a->Array_0.len() && i >= b->Array_0.len())) && forall|k: int|
            i <= k < a->Array_0.len() ==> alike(#[trigger] a->Array_0[k], b->Array_0[k]),
    decreases a, 0nat, a->Array_0.len() + b->Array_0.len() - i,
{
    let x = a->Array_0;
    let y = b->Array_0;
    if i < x.len() && i < y.len() {
        lemma_difference_alike(x[i as int], y[i as int], item_path(path, i));
        lemma_items_alike(a, b, i + 1, path);
    }
}

/// Saying the same goes both ways.
pub proof fn lemma_alike_symmetric(a: JsonModel, b: JsonModel)
    ensures
        alike(a, b) <==> alike(b, a),
    decreases a,
{
    match (a, b) {
        (JsonModel::Object(x), JsonModel::Object(y)) => {
            assert forall|i: int, j: int| 0 <= i < x.len() && 0 <= j < y.len() implies (alike(
                (#[trigger] x[i]).1,
                (#[trigger] y[j]).1,
            ) <==> alike(y[j].1, x[i].1)) by {
                lemma_alike_symmetric(x[i].1, y[j].1);
            }
        },
        (JsonModel::Array(x), JsonModel::Array(y)) => {
            if x.len() == y.len() {
                assert forall|i: int| 0 <= i < x.len() implies (alike(#[trigger] x[i], y[i])
                    <==> alike(#[trigger] y[i], x[i])) by {
                    lemma_alike_symmetric(x[i], y[i]);
                }
            }
        },
        _ => {},
    }
}

/// Whichever of two documents comes first, a difference is found or it is not.
pub proof fn lemma_difference_symmetric(a: JsonModel, b: JsonModel, path: Seq<char>)
    ensures
        difference(a, b, path) is Some <==> difference(b, a, path) is Some,
{
    lemma_difference_alike(a, b, path);
    lemma_difference_alike(b, a, path);
    lemma_alike_symmetric(a, b);
}

/// What is found lies under the path that the search began at.
pub proof fn lemma_difference_under(a: JsonModel, b: JsonModel, path: Seq<char>)
    ensures
        difference(a, b, path) matches Some(found) ==> begins(found, path),
    decreases a, 1nat, 0nat,
{
    match (a, b) {
        (JsonModel::Object(x), JsonModel::Object(y)) => {
            lemma_fields_under(a, b, all_keys(x, y), 0, path);
        },
        (JsonModel::Array(x), JsonModel::Array(y)) => {
            lemma_items_under(a, b, 0, path);
        },
        _ => {
            if path.len() == 0 {
                assert("(root)"@.take(0) =~= path);
            } else {
                assert(path.take(path.len() as int) =~= path);
            }
        },
    }
}

proof fn lemma_fields_under(
    a: JsonModel,
    b: JsonModel,
    keys: Seq<Seq<char>>,
    i: nat,
    path: Seq<char>,
)
    ensures
        field_difference(a, b, keys, i, path) matches Some(found) ==> begins(found, path),
    decreases a, 0nat, keys.len() - i,
{
    if i < keys.len() && a is Object && b is Object {
        let x = a->Object_0;
        let y = b->Object_0;
        let child = field_path(path, keys[i as int]);
        let at = field_index(x, keys[i as int]);
        let bt = field_index(y, keys[i as int]);
        assert(begins(child, path)) by {
            assert(child.take(path.len() as int) =~= path);
        }
        if 0 <= at < x.len() && 0 <= bt < y.len() {
            lemma_difference_under(x[at].1, y[bt].1, child);
            if let Some(found) = difference(x[at].1, y[bt].1, child) {
                lemma_begins_through(found, child, path);
            }
            lemma_fields_under(a, b, keys, i + 1, path);
        } else {
            lemma_begins_more(child, " (missing on replay)"@);
            lemma_begins_more(child, " (added on replay)"@);
            lemma_begins_through(child + " (missing on replay)"@, child, path);
            lemma_begins_through(child + " (added on replay)"@, child, path);
        }
    }
}

proof fn lemma_items_under(a: JsonModel, b: JsonModel, i: nat, path: Seq<char>)
    ensures
        item_difference(a, b, i, path) matches Some(found) ==> begins(found, path),
    decreases a, 0nat, a->Array_0.len() + b->Array_0.len() - i,
{
    if a is Array && b is Array {
        let x = a->Array_0;
        let y = b->Array_0;
        let child = item_path(path, i);
        assert(begins(child, path)) by {
            assert(child.take(path.len() as int) =~= path);
        }
        if i < x.len() && i < y.len() {
            lemma_difference_under(x[i as int], y[i as int], child);
            if let Some(found) = difference(x[i as int], y[i as int], child) {
                lemma_begins_through(found, child, path);
            }
            lemma_items_under(a, b, i + 1, path);
        } else if i < x.len() || i < y.len() {
            let found = child + " (length "@ + decimal(x.len()) + " vs "@ + decimal(y.len())
                + ")"@;
            assert(found.take(path.len() as int) =~= path);
        }
    }
}

proof fn lemma_begins_more(s: Seq<char>, more: Seq<char>)
    ensures
        begins(s + more, s),
{
    assert((s + more).take(s.len() as int) =~= s);
}

proof fn lemma_begins_through(s: Seq<char>, middle: Seq<char>, prefix: Seq<char>)
    requires
        begins(s, middle),
        begins(middle, prefix),
    ensures
        begins(s, prefix),
{
    assert(s.take(prefix.len() as int) =~= middle.take(prefix.len() as int));
}

/// Whether `found` names the first field at which two objects differ: the
/// least key under which they do not say the same, marked where only one of
/// them has it, and else followed to where its two values first differ.
pub open spec fn first_at(
    x: Seq<(Seq<char>, JsonModel)>,
    y: Seq<(Seq<char>, JsonModel)>,
    key: Seq<char>,
    path: Seq<char>,
    found: Seq<char>,
) -> bool {
    let child = field_path(path, key);
    &&& !agree_at(x, y, key)
    &&& forall|other: Seq<char>| #[trigger] precedes(other, key) ==> agree_at(x, y, other)
    &&& begins(found, child)
    &&& match (lookup(x, key), lookup(y, key)) {
        (Some(u), Some(v)) => difference(u, v, child) == Some(found),
        (Some(_), None) => found == child + " (missing on replay)"@,
        _ => found == child + " (added on replay)"@,
    }
}

/// Where two objects differ, what is found is the first field at which they
/// do, in the order of the keys.
pub proof fn lemma_difference_first(
    x: Seq<(Seq<char>, JsonModel)>,
    y: Seq<(Seq<char>, JsonModel)>,
    path: Seq<char>,
) -> (key: Seq<char>)
    requires
        !alike(JsonModel::Object(x), JsonModel::Object(y)),
    ensures
        difference(JsonModel::Object(x), JsonModel::Object(y), path) is Some,
        first_at(
            x,
            y,
            key,
            path,
            difference(JsonModel::Object(x), JsonModel::Object(y), path)->0,
        ),
{
    let a = JsonModel::Object(x);
    let b = JsonModel::Object(y);
    let keys = all_keys(x, y);
    lemma_difference_alike(a, b, path);
    let k = lemma_first_field(a, b, keys, 0, path);
    let key = keys[k];
    crate::text::lemma_distinct(keys_of(x) + keys_of(y));
    assert forall|other: Seq<char>| #[trigger] precedes(other, key) implies agree_at(
        x,
        y,
        other,
    ) by {
        lemma_key_listed(x, y, other);
        if keys.contains(other) {
            let j = choose|j: int| 0 <= j < keys.len() && keys[j] == other;
            if j > k {
                crate::text::lemma_precedes_asymmetric(keys[k], keys[j]);
            } else if j == k {
                crate::text::lemma_precedes_asymmetric(key, key);
            }
            assert(agree_at(x, y, keys[j]));
        }
    }
    key
}

proof fn lemma_first_field(
    a: JsonModel,
    b: JsonModel,
    keys: Seq<Seq<char>>,
    i: nat,
    path: Seq<char>,
) -> (k: int)
    requires
        a is Object,
        b is Object,
        keys == all_keys(a->Object_0, b->Object_0),
        field_difference(a, b, keys, i, path) is Some,
    ensures
        i <= k < keys.len(),
        !agree_at(a->Object_0, b->Object_0, keys[k]),
        forall|j: int| i <= j < k ==> agree_at(a->Object_0, b->Object_0, #[trigger] keys[j]),
        begins(field_difference(a, b, keys, i, path)->0, field_path(path, keys[k])),
        match (lookup(a->Object_0, keys[k]), lookup(b->Object_0, keys[k])) {
            (Some(u), Some(v)) => difference(u, v, field_path(path, keys[k])) == field_difference(
                a,
                b,
                keys,
                i,
                path,
            ),
            (Some(_), None) => field_difference(a, b, keys, i, path) == Some(
                field_path(path, keys[k]) + " (missing on replay)"@,
            ),
            _ => field_difference(a, b, keys, i, path) == Some(
                field_path(path, keys[k]) + " (added on replay)"@,
            ),
        },
    decreases keys.len() - i,
{
    let x = a->Object_0;
    let y = b->Object_0;
    let key = keys[i as int];
    let child = field_path(path, key);
    let at = field_index(x, key);
    let bt = field_index(y, key);
    crate::json::lemma_field_index(x, key);
    crate::json::lemma_field_index(y, key);
    lemma_key_listed(x, y, key);
    assert(keys.contains(key));
    if 0 <= at < x.len() && 0 <= bt < y.len() {
        lemma_difference_alike(x[at].1, y[bt].1, child);
        lemma_difference_under(x[at].1, y[bt].1, child);
        if difference(x[at].1, y[bt].1, child) is Some {
            i as int
        } else {
            let k = lemma_first_field(a, b, keys, i + 1, path);
            assert forall|j: int| i <= j < k implies agree_at(x, y, #[trigger] keys[j]) by {
                if j == i {
                    assert(agree_at(x, y, key));
                }
            }
            k
        }
    } else {
        lemma_begins_more(child, " (missing on replay)"@);
        lemma_begins_more(child, " (added on replay)"@);
        i as int
    }
}

} // verus!
