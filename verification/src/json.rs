//! JSON documents: their values, their canonical key order, and their bytes.
//!
//! Parsing and printing are `serde_json`'s work. What is decided here is the
//! shape of a document as the rest of the library sees it: objects keep the
//! order in which their fields were written until [`Json::ordered`] arranges
//! them by key, at every depth.

use crate::text::{same, sort_distinct};
use vstd::prelude::*;

verus! {

/// A JSON number. A number with a fraction or an exponent is held as the text
/// that prints it.
#[derive(Debug, PartialEq, Eq)]
pub enum Number {
    Unsigned(u64),
    Signed(i64),
    Float(String),
}

/// What a number is, for contracts.
pub enum NumberModel {
    Unsigned(u64),
    Signed(i64),
    Float(Seq<char>),
}

impl View for Number {
    type V = NumberModel;

    open spec fn view(&self) -> NumberModel {
        match *self {
            Number::Unsigned(n) => NumberModel::Unsigned(n),
            Number::Signed(n) => NumberModel::Signed(n),
            Number::Float(t) => NumberModel::Float(t@),
        }
    }
}

impl Clone for Number {
    fn clone(&self) -> (r: Self)
        ensures
            r@ == self@,
    {
        match self {
            Number::Unsigned(n) => Number::Unsigned(*n),
            Number::Signed(n) => Number::Signed(*n),
            Number::Float(t) => Number::Float(t.clone()),
        }
    }
}

/// A JSON document.
#[derive(Debug, PartialEq, Eq)]
pub enum Json {
    Null,
    Bool(bool),
    Number(Number),
    Text(String),
    Array(Vec<Json>),
    Object(Vec<(String, Json)>),
}

/// What a document is, for contracts.
pub enum JsonModel {
    Null,
    Bool(bool),
    Number(NumberModel),
    Text(Seq<char>),
    Array(Seq<JsonModel>),
    Object(Seq<(Seq<char>, JsonModel)>),
}

impl View for Json {
    type V = JsonModel;

    open spec fn view(&self) -> JsonModel
        decreases self,
    {
        match *self {
            Json::Null => JsonModel::Null,
            Json::Bool(b) => JsonModel::Bool(b),
            Json::Number(n) => JsonModel::Number(n@),
            Json::Text(s) => JsonModel::Text(s@),
            Json::Array(items) => JsonModel::Array(
                Seq::new(
                    items@.len(),
                    |i: int|
                        if 0 <= i < items@.len() {
                            items@[i].view()
                        } else {
                            arbitrary()
                        },
                ),
            ),
            Json::Object(fields) => JsonModel::Object(
                Seq::new(
                    fields@.len(),
                    |i: int|
                        if 0 <= i < fields@.len() {
                            (fields@[i].0@, fields@[i].1.view())
                        } else {
                            arbitrary()
                        },
                ),
            ),
        }
    }
}

/// The documents of a list.
pub open spec fn items_of(items: Seq<Json>) -> Seq<JsonModel> {
    Seq::new(items.len(), |i: int| items[i]@)
}

/// The fields of an object.
pub open spec fn fields_of(fields: Seq<(String, Json)>) -> Seq<(Seq<char>, JsonModel)> {
    Seq::new(fields.len(), |i: int| (fields[i].0@, fields[i].1@))
}

/// A list's view is the list of the views.
pub proof fn lemma_array_view(items: Vec<Json>)
    ensures
        Json::Array(items)@ == JsonModel::Array(items_of(items@)),
{
    reveal_with_fuel(<Json as View>::view, 2);
    assert(Json::Array(items)@->Array_0 =~= items_of(items@));
}

/// An object's view is the list of its fields' views.
pub proof fn lemma_object_view(fields: Vec<(String, Json)>)
    ensures
        Json::Object(fields)@ == JsonModel::Object(fields_of(fields@)),
{
    reveal_with_fuel(<Json as View>::view, 2);
    assert(Json::Object(fields)@->Object_0 =~= fields_of(fields@));
}

/// What an array holds is smaller than the array.
pub proof fn lemma_item_smaller(json: Json, items: Vec<Json>, i: int)
    requires
        json == Json::Array(items),
        0 <= i < items@.len(),
    ensures
        decreases_to!(json => items@[i]),
{
    assert(decreases_to!(json => json->Array_0));
    assert(decreases_to!(items => items@));
    assert(decreases_to!(items@ => items@[i]));
}

/// What an object holds is smaller than the object.
pub proof fn lemma_field_smaller(json: Json, fields: Vec<(String, Json)>, i: int)
    requires
        json == Json::Object(fields),
        0 <= i < fields@.len(),
    ensures
        decreases_to!(json => fields@[i].1),
{
    assert(decreases_to!(json => json->Object_0));
    assert(decreases_to!(fields => fields@));
    assert(decreases_to!(fields@ => fields@[i]));
    assert(decreases_to!(fields@[i] => fields@[i].1));
}

impl Clone for Json {
    fn clone(&self) -> (r: Self)
        ensures
            r@ == self@,
        decreases self,
    {
        match self {
            Json::Null => Json::Null,
            Json::Bool(b) => Json::Bool(*b),
            Json::Number(n) => Json::Number(n.clone()),
            Json::Text(s) => Json::Text(s.clone()),
            Json::Array(items) => {
                let mut out: Vec<Json> = Vec::new();
                let mut i: usize = 0;
                while i < items.len()
                    invariant
                        i <= items@.len(),
                        out@.len() == i,
                        *self == Json::Array(*items),
                        forall|j: int| 0 <= j < i ==> (#[trigger] out@[j])@ == items@[j]@,
                    decreases items@.len() - i,
                {
                    proof {
                        lemma_item_smaller(*self, *items, i as int);
                    }
                    out.push(items[i].clone());
                    i += 1;
                }
                proof {
                    lemma_array_view(*items);
                    lemma_array_view(out);
                    assert(items_of(out@) =~= items_of(items@));
                }
                Json::Array(out)
            },
            Json::Object(fields) => {
                let mut out: Vec<(String, Json)> = Vec::new();
                let mut i: usize = 0;
                while i < fields.len()
                    invariant
                        i <= fields@.len(),
                        out@.len() == i,
                        *self == Json::Object(*fields),
                        forall|j: int|
                            0 <= j < i ==> (#[trigger] out@[j]).0@ == fields@[j].0@ && out@[j].1@
                                == fields@[j].1@,
                    decreases fields@.len() - i,
                {
                    let field = &fields[i];
                    proof {
                        lemma_field_smaller(*self, *fields, i as int);
                    }
                    out.push((field.0.clone(), field.1.clone()));
                    i += 1;
                }
                proof {
                    lemma_object_view(*fields);
                    lemma_object_view(out);
                    assert(fields_of(out@) =~= fields_of(fields@));
                }
                Json::Object(out)
            },
        }
    }
}

// ---------------------------------------------------------------------------
// Looking things up
// ---------------------------------------------------------------------------

/// Where the last field with this key stands, or -1.
pub open spec fn field_index(fields: Seq<(Seq<char>, JsonModel)>, key: Seq<char>) -> int
    decreases fields.len(),
{
    if fields.len() == 0 {
        -1
    } else if fields.last().0 == key {
        fields.len() - 1
    } else {
        field_index(fields.drop_last(), key)
    }
}

/// The value under a key. Where a key repeats, its last value counts.
pub open spec fn lookup(fields: Seq<(Seq<char>, JsonModel)>, key: Seq<char>) -> Option<JsonModel> {
    let i = field_index(fields, key);
    if 0 <= i < fields.len() {
        Some(fields[i].1)
    } else {
        None
    }
}

/// The value of an object's field; other documents have none.
pub open spec fn get(m: JsonModel, key: Seq<char>) -> Option<JsonModel> {
    match m {
        JsonModel::Object(fields) => lookup(fields, key),
        _ => None,
    }
}

/// The number a document holds, where it is a whole number of 64 bits without
/// a sign.
pub open spec fn whole(m: JsonModel) -> Option<u64> {
    match m {
        JsonModel::Number(NumberModel::Unsigned(n)) => Some(n),
        JsonModel::Number(NumberModel::Signed(n)) => if n >= 0 {
            Some(n as u64)
        } else {
            None
        },
        _ => None,
    }
}

/// The text a document holds.
pub open spec fn text(m: JsonModel) -> Option<Seq<char>> {
    match m {
        JsonModel::Text(s) => Some(s),
        _ => None,
    }
}

/// The field that `field_index` names carries the key, and no later one does.
pub proof fn lemma_field_index(fields: Seq<(Seq<char>, JsonModel)>, key: Seq<char>)
    ensures
        -1 <= field_index(fields, key) < fields.len(),
        field_index(fields, key) >= 0 ==> fields[field_index(fields, key)].0 == key,
        forall|j: int|
            field_index(fields, key) < j < fields.len() ==> (#[trigger] fields[j]).0 != key,
    decreases fields.len(),
{
    if fields.len() > 0 && fields.last().0 != key {
        lemma_field_index(fields.drop_last(), key);
        assert forall|j: int| field_index(fields, key) < j < fields.len() implies (
        #[trigger] fields[j]).0 != key by {
            if j < fields.len() - 1 {
                assert(fields.drop_last()[j].0 != key);
            }
        }
    }
}

proof fn lemma_field_index_is(fields: Seq<(Seq<char>, JsonModel)>, key: Seq<char>, i: int)
    requires
        -1 <= i < fields.len(),
        i >= 0 ==> fields[i].0 == key,
        forall|j: int| i < j < fields.len() ==> (#[trigger] fields[j]).0 != key,
    ensures
        field_index(fields, key) == i,
{
    lemma_field_index(fields, key);
}

/// `field_index`, searched from the end.
pub fn find_field(fields: &Vec<(String, Json)>, key: &str) -> (r: Option<usize>)
    ensures
        match r {
            Some(i) => i < fields@.len() && field_index(fields_of(fields@), key@) == i,
            None => field_index(fields_of(fields@), key@) == -1,
        },
{
    let mut i: usize = fields.len();
    while i > 0
        invariant
            i <= fields@.len(),
            forall|j: int| i <= j < fields@.len() ==> (#[trigger] fields_of(fields@)[j]).0 != key@,
        decreases i,
    {
        i -= 1;
        if same(fields[i].0.as_str(), key) {
            proof {
                lemma_field_index_is(fields_of(fields@), key@, i as int);
            }
            return Some(i);
        }
    }
    proof {
        lemma_field_index_is(fields_of(fields@), key@, -1);
    }
    None
}

impl Json {
    /// A text.
    pub fn text(s: &str) -> (r: Json)
        ensures
            r@ == JsonModel::Text(s@),
    {
        Json::Text(s.to_owned())
    }

    /// A whole number.
    pub fn whole(n: u64) -> (r: Json)
        ensures
            r@ == JsonModel::Number(NumberModel::Unsigned(n)),
    {
        Json::Number(Number::Unsigned(n))
    }

    /// An object of these fields.
    pub fn object(fields: Vec<(String, Json)>) -> (r: Json)
        ensures
            r@ == JsonModel::Object(fields_of(fields@)),
    {
        proof {
            lemma_object_view(fields);
        }
        Json::Object(fields)
    }

    /// An array of these items.
    pub fn array(items: Vec<Json>) -> (r: Json)
        ensures
            r@ == JsonModel::Array(items_of(items@)),
    {
        proof {
            lemma_array_view(items);
        }
        Json::Array(items)
    }

    /// The value of an object's field.
    pub fn get(&self, key: &str) -> (r: Option<&Json>)
        ensures
            r is Some <==> get(self@, key@) is Some,
            r is Some ==> r->0@ == get(self@, key@)->0,
    {
        match self {
            Json::Object(fields) => {
                proof {
                    lemma_object_view(*fields);
                }
                match find_field(fields, key) {
                    Some(i) => {
                        assert(fields_of(fields@)[i as int].1 == fields@[i as int].1@);
                        Some(&fields[i].1)
                    },
                    None => None,
                }
            },
            _ => None,
        }
    }

    /// The text this document holds.
    pub fn as_text(&self) -> (r: Option<&String>)
        ensures
            r is Some <==> text(self@) is Some,
            r is Some ==> r->0@ == text(self@)->0,
    {
        match self {
            Json::Text(s) => Some(s),
            _ => None,
        }
    }

    /// The whole number without a sign that this document holds.
    pub fn as_u64(&self) -> (r: Option<u64>)
        ensures
            r == whole(self@),
    {
        match self {
            Json::Number(Number::Unsigned(n)) => Some(*n),
            Json::Number(Number::Signed(n)) => if *n >= 0 {
                Some(*n as u64)
            } else {
                None
            },
            _ => None,
        }
    }

    /// Whether this document is `null`.
    pub fn is_null(&self) -> (r: bool)
        ensures
            r == (self@ == JsonModel::Null),
    {
        match self {
            Json::Null => true,
            _ => false,
        }
    }
}

// ---------------------------------------------------------------------------
// Key order
// ---------------------------------------------------------------------------

/// The keys of an object's fields, as written.
pub open spec fn keys_of(fields: Seq<(Seq<char>, JsonModel)>) -> Seq<Seq<char>> {
    Seq::new(fields.len(), |i: int| fields[i].0)
}

/// A document with the fields of every object in ascending key order, each
/// key once.
pub open spec fn ordered(m: JsonModel) -> JsonModel
    decreases m,
{
    match m {
        JsonModel::Array(items) => JsonModel::Array(
            Seq::new(
                items.len(),
                |i: int|
                    if 0 <= i < items.len() {
                        ordered(items[i])
                    } else {
                        arbitrary()
                    },
            ),
        ),
        JsonModel::Object(fields) => {
            let keys = crate::text::distinct(keys_of(fields));
            JsonModel::Object(
                Seq::new(
                    keys.len(),
                    |i: int|
                        {
                            let at = field_index(fields, keys[i]);
                            if 0 <= at < fields.len() {
                                (keys[i], ordered(fields[at].1))
                            } else {
                                arbitrary()
                            }
                        },
                ),
            )
        },
        _ => m,
    }
}

/// Every key of an object is found again by `field_index`.
proof fn lemma_key_found(fields: Seq<(Seq<char>, JsonModel)>, i: int)
    requires
        0 <= i < crate::text::distinct(keys_of(fields)).len(),
    ensures
        0 <= field_index(fields, crate::text::distinct(keys_of(fields))[i]) < fields.len(),
        fields[field_index(fields, crate::text::distinct(keys_of(fields))[i])].0
            == crate::text::distinct(keys_of(fields))[i],
{
    let keys = crate::text::distinct(keys_of(fields));
    let key = keys[i];
    crate::text::lemma_distinct(keys_of(fields));
    assert(keys.contains(key));
    assert(keys_of(fields).contains(key));
    let j = choose|j: int| 0 <= j < keys_of(fields).len() && keys_of(fields)[j] == key;
    assert(fields[j].0 == key);
    lemma_field_index(fields, key);
}

impl Json {
    /// This document with the fields of every object in ascending key order.
    /// Where a key repeats, its last value stays.
    pub fn ordered(&self) -> (r: Json)
        ensures
            r@ == ordered(self@),
        decreases self,
    {
        match self {
            Json::Array(items) => {
                let mut out: Vec<Json> = Vec::new();
                let mut i: usize = 0;
                while i < items.len()
                    invariant
                        i <= items@.len(),
                        out@.len() == i,
                        *self == Json::Array(*items),
                        forall|j: int| 0 <= j < i ==> (#[trigger] out@[j])@ == ordered(items@[j]@),
                    decreases items@.len() - i,
                {
                    proof {
                        lemma_item_smaller(*self, *items, i as int);
                    }
                    out.push(items[i].ordered());
                    i += 1;
                }
                proof {
                    lemma_array_view(*items);
                    lemma_array_view(out);
                    assert(items_of(out@) =~= ordered(self@)->Array_0);
                }
                Json::Array(out)
            },
            Json::Object(fields) => {
                let mut names: Vec<String> = Vec::new();
                let mut i: usize = 0;
                while i < fields.len()
                    invariant
                        i <= fields@.len(),
                        names@.len() == i,
                        forall|j: int| 0 <= j < i ==> (#[trigger] names@[j])@ == fields@[j].0@,
                    decreases fields@.len() - i,
                {
                    names.push(fields[i].0.clone());
                    i += 1;
                }
                let ghost written = fields_of(fields@);
                assert(crate::text::texts(names@) =~= keys_of(written));
                let keys = sort_distinct(names);
                let ghost sorted = crate::text::distinct(keys_of(written));
                let mut out: Vec<(String, Json)> = Vec::new();
                let mut k: usize = 0;
                while k < keys.len()
                    invariant
                        k <= keys@.len(),
                        out@.len() == k,
                        *self == Json::Object(*fields),
                        written == fields_of(fields@),
                        crate::text::texts(keys@) == sorted,
                        sorted == crate::text::distinct(keys_of(written)),
                        forall|j: int|
                            0 <= j < k ==> (#[trigger] out@[j]).0@ == sorted[j] && out@[j].1@
                                == ordered(written[field_index(written, sorted[j])].1),
                    decreases keys@.len() - k,
                {
                    proof {
                        lemma_key_found(written, k as int);
                        assert(sorted[k as int] == keys@[k as int]@);
                    }
                    match find_field(fields, keys[k].as_str()) {
                        Some(at) => {
                            proof {
                                lemma_field_smaller(*self, *fields, at as int);
                            }
                            out.push((keys[k].clone(), fields[at].1.ordered()));
                        },
                        None => {},
                    }
                    k += 1;
                }
                proof {
                    lemma_object_view(*fields);
                    lemma_object_view(out);
                    assert forall|j: int| 0 <= j < sorted.len() implies #[trigger] fields_of(
                        out@,
                    )[j] == ordered(self@)->Object_0[j] by {
                        lemma_key_found(written, j);
                        assert(out@[j].0@ == sorted[j]);
                    }
                    assert(crate::text::texts(keys@).len() == sorted.len());
                    assert(fields_of(out@) =~= ordered(self@)->Object_0);
                }
                Json::Object(out)
            },
            _ => self.clone(),
        }
    }
}

/// Whether no object in a document, at any depth, repeats a key.
pub open spec fn tidy(m: JsonModel) -> bool
    decreases m,
{
    match m {
        JsonModel::Array(items) => forall|i: int| 0 <= i < items.len() ==> tidy(#[trigger] items[i]),
        JsonModel::Object(fields) => {
            &&& keys_of(fields).no_duplicates()
            &&& forall|i: int| 0 <= i < fields.len() ==> tidy((#[trigger] fields[i]).1)
        },
        _ => true,
    }
}

/// How deep a document may nest for a reader to take it back.
pub open spec fn depth_limit() -> nat {
    127
}

/// Whether printing a document and reading it back is exact: its numbers are
/// whole, with a sign only where they are below zero, and it nests at most
/// `room` deep.
pub open spec fn exact(m: JsonModel, room: nat) -> bool
    decreases m,
{
    match m {
        JsonModel::Number(NumberModel::Float(_)) => false,
        JsonModel::Number(NumberModel::Signed(n)) => n < 0,
        JsonModel::Array(items) => room > 0 && forall|i: int|
            0 <= i < items.len() ==> exact(#[trigger] items[i], (room - 1) as nat),
        JsonModel::Object(fields) => room > 0 && forall|i: int|
            0 <= i < fields.len() ==> exact((#[trigger] fields[i]).1, (room - 1) as nat),
        _ => true,
    }
}

/// An ordered document repeats no key.
pub proof fn lemma_ordered_tidy(m: JsonModel)
    ensures
        tidy(ordered(m)),
    decreases m,
{
    match m {
        JsonModel::Array(items) => {
            let out = ordered(m)->Array_0;
            assert forall|i: int| 0 <= i < out.len() implies tidy(#[trigger] out[i]) by {
                lemma_ordered_tidy(items[i]);
            }
        },
        JsonModel::Object(fields) => {
            let out = ordered(m)->Object_0;
            let keys = crate::text::distinct(keys_of(fields));
            crate::text::lemma_distinct(keys_of(fields));
            assert forall|i: int| 0 <= i < out.len() implies (#[trigger] out[i]).0 == keys[i]
                && tidy(out[i].1) by {
                lemma_key_found(fields, i);
                lemma_ordered_tidy(fields[field_index(fields, keys[i])].1);
            }
            assert forall|i: int, j: int| 0 <= i < j < out.len() implies keys_of(out)[i]
                != keys_of(out)[j] by {
                assert(out[i].0 == keys[i]);
                assert(out[j].0 == keys[j]);
                crate::text::lemma_precedes_asymmetric(keys[i], keys[j]);
            }
        },
        _ => {},
    }
}

/// Ordering keeps a document exact.
pub proof fn lemma_ordered_exact(m: JsonModel, room: nat)
    requires
        exact(m, room),
    ensures
        exact(ordered(m), room),
    decreases m,
{
    match m {
        JsonModel::Array(items) => {
            let out = ordered(m)->Array_0;
            assert forall|i: int| 0 <= i < out.len() implies exact(
                #[trigger] out[i],
                (room - 1) as nat,
            ) by {
                assert(exact(items[i], (room - 1) as nat));
                lemma_ordered_exact(items[i], (room - 1) as nat);
            }
        },
        JsonModel::Object(fields) => {
            let out = ordered(m)->Object_0;
            let keys = crate::text::distinct(keys_of(fields));
            assert forall|i: int| 0 <= i < out.len() implies exact(
                (#[trigger] out[i]).1,
                (room - 1) as nat,
            ) by {
                lemma_key_found(fields, i);
                let at = field_index(fields, keys[i]);
                assert(exact(fields[at].1, (room - 1) as nat));
                lemma_ordered_exact(fields[at].1, (room - 1) as nat);
            }
        },
        _ => {},
    }
}

/// More room keeps a document exact.
pub proof fn lemma_exact_grows(m: JsonModel, room: nat, more: nat)
    requires
        exact(m, room),
        room <= more,
    ensures
        exact(m, more),
    decreases m,
{
    match m {
        JsonModel::Array(items) => {
            assert forall|i: int| 0 <= i < items.len() implies exact(
                #[trigger] items[i],
                (more - 1) as nat,
            ) by {
                lemma_exact_grows(items[i], (room - 1) as nat, (more - 1) as nat);
            }
        },
        JsonModel::Object(fields) => {
            assert forall|i: int| 0 <= i < fields.len() implies exact(
                (#[trigger] fields[i]).1,
                (more - 1) as nat,
            ) by {
                lemma_exact_grows(fields[i].1, (room - 1) as nat, (more - 1) as nat);
            }
        },
        _ => {},
    }
}

/// Ordering an ordered document changes nothing.
pub proof fn lemma_ordered_idle(m: JsonModel)
    ensures
        ordered(ordered(m)) == ordered(m),
    decreases m,
{
    match m {
        JsonModel::Array(items) => {
            let once = ordered(m)->Array_0;
            assert forall|i: int| 0 <= i < once.len() implies ordered(#[trigger] once[i])
                == once[i] by {
                lemma_ordered_idle(items[i]);
            }
            assert(ordered(ordered(m))->Array_0 =~= once);
        },
        JsonModel::Object(fields) => {
            let once = ordered(m)->Object_0;
            let keys = crate::text::distinct(keys_of(fields));
            crate::text::lemma_distinct(keys_of(fields));
            assert forall|i: int| 0 <= i < once.len() implies (#[trigger] once[i]).0 == keys[i]
                && ordered(once[i].1) == once[i].1 by {
                lemma_key_found(fields, i);
                lemma_ordered_idle(fields[field_index(fields, keys[i])].1);
            }
            assert(keys_of(once) =~= keys);
            crate::text::lemma_distinct_idle(keys);
            let twice = ordered(ordered(m))->Object_0;
            assert forall|i: int| 0 <= i < once.len() implies #[trigger] twice[i] == once[i] by {
                assert forall|j: int| i < j < once.len() implies (#[trigger] once[j]).0
                    != keys[i] by {
                    crate::text::lemma_precedes_asymmetric(keys[i], keys[j]);
                }
                assert(once[i].0 == keys[i]);
                lemma_field_index_is(once, keys[i], i);
            }
            assert(twice =~= once);
        },
        _ => {},
    }
}

/// The fields of an ordered object stand by their keys, each once, and hold
/// ordered documents.
pub proof fn lemma_ordered_fields(fields: Seq<(Seq<char>, JsonModel)>, i: int)
    requires
        ordered(JsonModel::Object(fields)) == JsonModel::Object(fields),
        0 <= i < fields.len(),
    ensures
        crate::text::distinct(keys_of(fields)) == keys_of(fields),
        field_index(fields, fields[i].0) == i,
        ordered(fields[i].1) == fields[i].1,
{
    let keys = crate::text::distinct(keys_of(fields));
    let out = ordered(JsonModel::Object(fields))->Object_0;
    crate::text::lemma_distinct(keys_of(fields));
    assert(out.len() == keys.len());
    assert forall|k: int| 0 <= k < keys.len() implies #[trigger] keys[k] == keys_of(fields)[k] by {
        lemma_key_found(fields, k);
        assert(out[k].0 == keys[k]);
    }
    assert(keys =~= keys_of(fields));
    assert forall|j: int| i < j < fields.len() implies (#[trigger] fields[j]).0
        != fields[i].0 by {
        assert(keys[i] == fields[i].0 && keys[j] == fields[j].0);
        crate::text::lemma_precedes_asymmetric(keys[i], keys[j]);
    }
    lemma_field_index_is(fields, fields[i].0, i);
    assert(keys[i] == fields[i].0);
    assert(out[i] == fields[i]);
}

/// An object with the keys of an ordered one, over ordered documents, is
/// ordered.
pub proof fn lemma_ordered_keys(
    fields: Seq<(Seq<char>, JsonModel)>,
    other: Seq<(Seq<char>, JsonModel)>,
)
    requires
        ordered(JsonModel::Object(fields)) == JsonModel::Object(fields),
        keys_of(other) == keys_of(fields),
        forall|i: int| 0 <= i < other.len() ==> ordered((#[trigger] other[i]).1) == other[i].1,
    ensures
        ordered(JsonModel::Object(other)) == JsonModel::Object(other),
{
    let out = ordered(JsonModel::Object(other))->Object_0;
    assert(keys_of(other).len() == other.len() && keys_of(fields).len() == fields.len());
    if other.len() > 0 {
        lemma_ordered_fields(fields, 0);
    } else {
        assert(fields.len() == 0);
        assert(keys_of(other) =~= seq![]);
        assert(ordered(JsonModel::Object(fields))->Object_0.len() == 0);
    }
    assert forall|i: int| 0 <= i < other.len() implies #[trigger] out[i] == other[i] by {
        lemma_ordered_fields(fields, i);
        assert(keys_of(other)[i] == keys_of(fields)[i]);
        assert forall|j: int| i < j < other.len() implies (#[trigger] other[j]).0
            != other[i].0 by {
            assert(keys_of(other)[j] == keys_of(fields)[j]);
            lemma_ordered_fields(fields, j);
        }
        lemma_field_index_is(other, other[i].0, i);
        assert(crate::text::distinct(keys_of(other))[i] == other[i].0);
    }
    assert(out =~= other);
}

/// Ordering keeps what an object holds under each key, ordered in turn.
pub proof fn lemma_ordered_get(m: JsonModel, key: Seq<char>)
    ensures
        get(ordered(m), key) == match get(m, key) {
            Some(v) => Some(ordered(v)),
            None => None,
        },
{
    match m {
        JsonModel::Object(fields) => {
            let out = ordered(m)->Object_0;
            let keys = crate::text::distinct(keys_of(fields));
            crate::text::lemma_distinct(keys_of(fields));
            assert forall|i: int| 0 <= i < out.len() implies (#[trigger] out[i]).0 == keys[i] by {
                lemma_key_found(fields, i);
            }
            lemma_field_index(fields, key);
            lemma_field_index(out, key);
            let at = field_index(fields, key);
            if at >= 0 {
                assert(keys_of(fields)[at] == key);
                assert(keys.contains(key));
                let k = choose|k: int| 0 <= k < keys.len() && keys[k] == key;
                assert(out[k].0 == key);
                let o = field_index(out, key);
                assert(o >= k);
                assert(out[o].0 == keys[o]);
                lemma_key_found(fields, o);
            } else {
                let o = field_index(out, key);
                if o >= 0 {
                    assert(out[o].0 == keys[o]);
                    lemma_key_found(fields, o);
                }
            }
        },
        _ => {},
    }
}

// ---------------------------------------------------------------------------
// Text and bytes
// ---------------------------------------------------------------------------

/// `serde_json`'s document type.
#[verifier::external_type_specification]
#[verifier::external_body]
pub struct ExValue(serde_json::Value);

/// The document that a `serde_json::Value` holds.
pub uninterp spec fn value_model(v: serde_json::Value) -> JsonModel;

/// The document that the text of a number with a fraction stands for: the
/// number itself as it prints, or `null` where the text is no finite number.
pub uninterp spec fn float_value(t: Seq<char>) -> JsonModel;

/// A digit of base sixteen, in lower case.
pub open spec fn hex_digit(d: nat) -> char {
    if d < 10 {
        (d + 0x30) as char
    } else {
        (d + 0x57) as char
    }
}

/// How a character stands in a string: quotes, backslashes and controls are
/// escaped.
pub open spec fn escaped_char(c: char) -> Seq<char> {
    if c == '"' || c == '\\' {
        seq!['\\', c]
    } else if c == '\u{8}' {
        seq!['\\', 'b']
    } else if c == '\u{c}' {
        seq!['\\', 'f']
    } else if c == '\n' {
        seq!['\\', 'n']
    } else if c == '\r' {
        seq!['\\', 'r']
    } else if c == '\t' {
        seq!['\\', 't']
    } else if (c as nat) < 0x20 {
        seq!['\\', 'u', '0', '0', hex_digit(c as nat / 16), hex_digit(c as nat % 16)]
    } else {
        seq![c]
    }
}

/// How a text stands in a string.
pub open spec fn escaped(s: Seq<char>) -> Seq<char>
    decreases s.len(),
{
    if s.len() == 0 {
        seq![]
    } else {
        escaped(s.drop_last()) + escaped_char(s.last())
    }
}

/// A text as a string.
pub open spec fn string_text(s: Seq<char>) -> Seq<char> {
    seq!['"'] + escaped(s) + seq!['"']
}

/// The text of a number.
pub open spec fn number_text(n: NumberModel) -> Seq<char> {
    match n {
        NumberModel::Unsigned(n) => crate::text::decimal(n as nat),
        NumberModel::Signed(n) => if n < 0 {
            seq!['-'] + crate::text::decimal((-n) as nat)
        } else {
            crate::text::decimal(n as nat)
        },
        NumberModel::Float(t) => t,
    }
}

/// The text of a document on one line, with nothing between its tokens.
#[verifier::opaque]
pub open spec fn json_text(m: JsonModel) -> Seq<char>
    decreases m, 1nat, 0nat,
{
    match m {
        JsonModel::Null => "null"@,
        JsonModel::Bool(b) => if b {
            "true"@
        } else {
            "false"@
        },
        JsonModel::Number(n) => number_text(n),
        JsonModel::Text(t) => string_text(t),
        JsonModel::Array(items) => seq!['['] + items_text(m, items.len()) + seq![']'],
        JsonModel::Object(fields) => seq!['{'] + fields_text(m, fields.len()) + seq!['}'],
    }
}

/// The text of the first items of an array.
#[verifier::opaque]
pub open spec fn items_text(m: JsonModel, k: nat) -> Seq<char>
    decreases m, 0nat, k,
{
    if k == 0 || !(m is Array) || k > m->Array_0.len() {
        seq![]
    } else {
        let last = json_text(m->Array_0[k - 1]);
        if k == 1 {
            last
        } else {
            items_text(m, (k - 1) as nat) + seq![','] + last
        }
    }
}

/// The text of the first fields of an object.
#[verifier::opaque]
pub open spec fn fields_text(m: JsonModel, k: nat) -> Seq<char>
    decreases m, 0nat, k,
{
    if k == 0 || !(m is Object) || k > m->Object_0.len() {
        seq![]
    } else {
        let field = m->Object_0[k - 1];
        let last = string_text(field.0) + seq![':'] + json_text(field.1);
        if k == 1 {
            last
        } else {
            fields_text(m, (k - 1) as nat) + seq![','] + last
        }
    }
}

/// Whether a text is made of what numbers are printed with.
pub open spec fn numeric(t: Seq<char>) -> bool {
    forall|i: int|
        0 <= i < t.len() ==> '0' <= #[trigger] t[i] <= '9' || t[i] == '.' || t[i] == 'e' || t[i]
            == '+' || t[i] == '-'
}

/// Whether every fraction in a document is a number as it prints.
pub open spec fn plain(m: JsonModel) -> bool
    decreases m,
{
    match m {
        JsonModel::Number(NumberModel::Float(t)) => numeric(t),
        JsonModel::Array(items) => forall|i: int|
            0 <= i < items.len() ==> plain(#[trigger] items[i]),
        JsonModel::Object(fields) => forall|i: int|
            0 <= i < fields.len() ==> plain((#[trigger] fields[i]).1),
        _ => true,
    }
}

/// The text that `serde_json::to_string_pretty` prints for a document.
pub uninterp spec fn json_pretty(m: JsonModel) -> Seq<char>;

/// What `serde_json::from_slice` makes of bytes: the document, where they are
/// JSON, or what it says is wrong with them.
pub uninterp spec fn json_reading(bytes: Seq<u8>) -> Result<JsonModel, Seq<char>>;

/// What `toml::from_str` makes of a text: the `serde_json::Value`, where it is
/// TOML, or what it says is wrong with it.
pub uninterp spec fn toml_reading(text: Seq<char>) -> Result<JsonModel, Seq<char>>;

/// The document in bytes, where they are JSON.
pub open spec fn json_read(bytes: Seq<u8>) -> Option<JsonModel> {
    match json_reading(bytes) {
        Ok(m) => Some(m),
        Err(_) => None,
    }
}

/// The document in a text, where it is TOML.
pub open spec fn toml_read(text: Seq<char>) -> Option<JsonModel> {
    match toml_reading(text) {
        Ok(m) => Some(m),
        Err(_) => None,
    }
}

/// Why bytes are not read as some record: what is wrong with them as JSON, or
/// else that they hold another document than the one expected.
pub open spec fn reason(bytes: Seq<u8>, otherwise: Seq<char>) -> Seq<char> {
    match json_reading(bytes) {
        Ok(_) => otherwise,
        Err(trouble) => trouble,
    }
}

/// The outermost layer of a document, over documents that `serde_json` holds.
enum Shape {
    Null,
    Bool(bool),
    Number(Number),
    Text(String),
    Array(Vec<serde_json::Value>),
    Object(Vec<(String, serde_json::Value)>),
}

/// The document that a layer stands for.
spec fn shape_model(s: Shape) -> JsonModel {
    match s {
        Shape::Null => JsonModel::Null,
        Shape::Bool(b) => JsonModel::Bool(b),
        Shape::Number(n) => JsonModel::Number(n@),
        Shape::Text(t) => JsonModel::Text(t@),
        Shape::Array(items) => JsonModel::Array(
            Seq::new(items@.len(), |i: int| value_model(items@[i])),
        ),
        Shape::Object(fields) => JsonModel::Object(
            Seq::new(fields@.len(), |i: int| (fields@[i].0@, value_model(fields@[i].1))),
        ),
    }
}

/// A number as `serde_json` keeps it: a sign only below zero, and a fraction
/// as the text that prints it.
pub open spec fn settled_number(n: NumberModel) -> JsonModel {
    match n {
        NumberModel::Float(t) => float_value(t),
        NumberModel::Signed(n) => if n < 0 {
            JsonModel::Number(NumberModel::Signed(n))
        } else {
            JsonModel::Number(NumberModel::Unsigned(n as u64))
        },
        NumberModel::Unsigned(n) => JsonModel::Number(NumberModel::Unsigned(n)),
    }
}

/// A document with its numbers as `serde_json` keeps them.
pub open spec fn settled(m: JsonModel) -> JsonModel
    decreases m,
{
    match m {
        JsonModel::Number(n) => settled_number(n),
        JsonModel::Array(items) => JsonModel::Array(
            Seq::new(
                items.len(),
                |i: int|
                    if 0 <= i < items.len() {
                        settled(items[i])
                    } else {
                        arbitrary()
                    },
            ),
        ),
        JsonModel::Object(fields) => JsonModel::Object(
            Seq::new(
                fields.len(),
                |i: int|
                    if 0 <= i < fields.len() {
                        (fields[i].0, settled(fields[i].1))
                    } else {
                        arbitrary()
                    },
            ),
        ),
        _ => m,
    }
}

/// An exact document is already settled.
pub proof fn lemma_settled_exact(m: JsonModel, room: nat)
    requires
        exact(m, room),
    ensures
        settled(m) == m,
    decreases m,
{
    match m {
        JsonModel::Array(items) => {
            assert forall|i: int| 0 <= i < items.len() implies settled(#[trigger] items[i])
                == items[i] by {
                lemma_settled_exact(items[i], (room - 1) as nat);
            }
            assert(settled(m)->Array_0 =~= items);
        },
        JsonModel::Object(fields) => {
            assert forall|i: int| 0 <= i < fields.len() implies settled((#[trigger] fields[i]).1)
                == fields[i].1 by {
                lemma_settled_exact(fields[i].1, (room - 1) as nat);
            }
            assert(settled(m)->Object_0 =~= fields);
        },
        _ => {},
    }
}

/// Takes a `serde_json::Value` apart by its variant: an array into its
/// elements, an object into its entries in the order it keeps them, a number
/// into `as_u64`, else `as_i64`, else the text it prints. An object of
/// `serde_json` holds each key once.
#[verifier::external_body]
fn open_value(v: serde_json::Value) -> (r: Shape)
    ensures
        shape_model(r) == value_model(v),
        tidy(shape_model(r)),
{
    match v {
        serde_json::Value::Null => Shape::Null,
        serde_json::Value::Bool(b) => Shape::Bool(b),
        serde_json::Value::Number(n) => Shape::Number(match (n.as_u64(), n.as_i64()) {
            (Some(u), _) => Number::Unsigned(u),
            (None, Some(i)) => Number::Signed(i),
            (None, None) => Number::Float(n.to_string()),
        }),
        serde_json::Value::String(s) => Shape::Text(s),
        serde_json::Value::Array(items) => Shape::Array(items),
        serde_json::Value::Object(map) => Shape::Object(map.into_iter().collect()),
    }
}

/// Builds a `serde_json::Value` of one layer: `From` for numbers of 64 bits,
/// `Number::from_f64` on the parsed text of a fraction (`null` where that is
/// no finite number), and a map filled with the entries in their order, whose
/// keys must not repeat. A fraction prints with digits, a point, an exponent
/// and signs.
#[verifier::external_body]
fn close_value(s: Shape) -> (r: serde_json::Value)
    requires
        s matches Shape::Object(fields) ==> keys_of(shape_model(s)->Object_0).no_duplicates(),
    ensures
        value_model(r) == match s {
            Shape::Number(Number::Float(t)) => float_value(t@),
            Shape::Number(n) => settled_number(n@),
            _ => shape_model(s),
        },
        s is Number ==> plain(value_model(r)),
{
    match s {
        Shape::Null => serde_json::Value::Null,
        Shape::Bool(b) => serde_json::Value::Bool(b),
        Shape::Number(Number::Unsigned(n)) => serde_json::Value::from(n),
        Shape::Number(Number::Signed(n)) => serde_json::Value::from(n),
        Shape::Number(Number::Float(t)) => {
            let n = t.parse().ok().and_then(serde_json::Number::from_f64);
            n.map_or(serde_json::Value::Null, serde_json::Value::Number)
        },
        Shape::Text(t) => serde_json::Value::String(t),
        Shape::Array(items) => serde_json::Value::Array(items),
        Shape::Object(fields) => serde_json::Value::Object(fields.into_iter().collect()),
    }
}

/// `serde_json::to_string` on a `Value`, which cannot fail. It prints JSON with
/// nothing between tokens, so the text holds no line break and is not blank:
/// control characters inside strings are escaped. An exact document within the
/// reader's nesting limit is read back as it was.
#[verifier::external_body]
fn write_value(v: &serde_json::Value) -> (r: String)
    ensures
        r@ == json_text(value_model(*v)),
        !r@.contains('\n'),
        !r@.contains('\r'),
        !crate::text::all_space(r@),
        exact(value_model(*v), depth_limit()) ==> json_read(vstd::utf8::encode_utf8(r@)) == Some(
            value_model(*v),
        ),
{
    serde_json::to_string(v).expect("a value always serialises")
}

/// `serde_json::to_string_pretty`: the same document with line breaks and
/// indents between its tokens, which reading skips. What it prints for a
/// document without fractions and of bounded depth reads back as that
/// document.
#[verifier::external_body]
fn write_pretty(v: &serde_json::Value) -> (r: String)
    ensures
        r@ == json_pretty(value_model(*v)),
        exact(value_model(*v), depth_limit()) ==> json_read(vstd::utf8::encode_utf8(r@)) == Some(
            value_model(*v),
        ),
{
    serde_json::to_string_pretty(v).expect("a value always serialises")
}

/// `serde_json::from_slice` into a `Value`, with its error as the text it
/// displays: what is wrong, and the line and column, which the bytes decide.
#[verifier::external_body]
fn read_value(bytes: &[u8]) -> (r: Result<serde_json::Value, String>)
    ensures
        json_reading(bytes@) == match r {
            Ok(v) => Ok::<JsonModel, Seq<char>>(value_model(v)),
            Err(trouble) => Err(trouble@),
        },
{
    serde_json::from_slice(bytes).map_err(|e: serde_json::Error| e.to_string())
}

/// `toml::from_str` into a `serde_json::Value`, with its error as the text it
/// displays: what is wrong, and the line it shows, which the text decides.
#[verifier::external_body]
fn read_toml(text: &str) -> (r: Result<serde_json::Value, String>)
    ensures
        toml_reading(text@) == match r {
            Ok(v) => Ok::<JsonModel, Seq<char>>(value_model(v)),
            Err(trouble) => Err(trouble@),
        },
{
    toml::from_str(text).map_err(|e: toml::de::Error| e.to_string())
}

/// The document that a value of `serde_json` holds.
fn from_value(v: serde_json::Value) -> (r: Json)
    ensures
        r@ == value_model(v),
        tidy(r@),
    decreases value_model(v),
{
    let ghost whole = value_model(v);
    match open_value(v) {
        Shape::Null => Json::Null,
        Shape::Bool(b) => Json::Bool(b),
        Shape::Number(n) => Json::Number(n),
        Shape::Text(t) => Json::Text(t),
        Shape::Array(items) => {
            let ghost parts = whole->Array_0;
            let mut rest = items;
            let mut out: Vec<Json> = Vec::new();
            assert(rest@.len() == parts.len());
            while rest.len() > 0
                invariant
                    whole == value_model(v),
                    whole == JsonModel::Array(parts),
                    rest@.len() + out@.len() == parts.len(),
                    forall|j: int|
                        0 <= j < rest@.len() ==> value_model(#[trigger] rest@[j])
                            == parts[out@.len() + j],
                    forall|j: int| 0 <= j < out@.len() ==> (#[trigger] out@[j])@ == parts[j],
                decreases rest@.len(),
            {
                let first = rest.remove(0);
                assert(value_model(first) == parts[out@.len() as int]);
                assert(decreases_to!(whole => whole->Array_0));
                assert(decreases_to!(parts => parts[out@.len() as int]));
                out.push(from_value(first));
            }
            proof {
                lemma_array_view(out);
                assert(items_of(out@) =~= parts);
            }
            Json::Array(out)
        },
        Shape::Object(fields) => {
            let ghost parts = whole->Object_0;
            let mut rest = fields;
            let mut out: Vec<(String, Json)> = Vec::new();
            while rest.len() > 0
                invariant
                    whole == value_model(v),
                    whole == JsonModel::Object(parts),
                    rest@.len() + out@.len() == parts.len(),
                    forall|j: int|
                        0 <= j < rest@.len() ==> (#[trigger] rest@[j]).0@ == parts[out@.len()
                            + j].0 && value_model(rest@[j].1) == parts[out@.len() + j].1,
                    forall|j: int|
                        0 <= j < out@.len() ==> (#[trigger] out@[j]).0@ == parts[j].0 && out@[j].1@
                            == parts[j].1,
                decreases rest@.len(),
            {
                let (key, value) = rest.remove(0);
                assert(value_model(value) == parts[out@.len() as int].1);
                assert(decreases_to!(whole => whole->Object_0));
                assert(decreases_to!(parts => parts[out@.len() as int]));
                assert(decreases_to!(parts[out@.len() as int] => parts[out@.len() as int].1));
                out.push((key, from_value(value)));
            }
            proof {
                lemma_object_view(out);
                assert(fields_of(out@) =~= parts);
            }
            Json::Object(out)
        },
    }
}

/// A document as a value of `serde_json`.
fn to_value(json: &Json) -> (r: serde_json::Value)
    requires
        tidy(json@),
    ensures
        value_model(r) == settled(json@),
        plain(value_model(r)),
    decreases json,
{
    match json {
        Json::Null => close_value(Shape::Null),
        Json::Bool(b) => close_value(Shape::Bool(*b)),
        Json::Number(n) => close_value(Shape::Number(n.clone())),
        Json::Text(t) => close_value(Shape::Text(t.clone())),
        Json::Array(items) => {
            let mut out: Vec<serde_json::Value> = Vec::new();
            let mut i: usize = 0;
            proof {
                lemma_array_view(*items);
            }
            while i < items.len()
                invariant
                    i <= items@.len(),
                    out@.len() == i,
                    *json == Json::Array(*items),
                    tidy(json@),
                    json@ == JsonModel::Array(items_of(items@)),
                    forall|j: int|
                        0 <= j < i ==> value_model(#[trigger] out@[j]) == settled(items@[j]@)
                            && plain(value_model(out@[j])),
                decreases items@.len() - i,
            {
                proof {
                    lemma_item_smaller(*json, *items, i as int);
                    assert(tidy(json@->Array_0[i as int]));
                }
                out.push(to_value(&items[i]));
                i += 1;
            }
            let ghost shape = Shape::Array(out);
            assert(shape_model(shape)->Array_0 =~= settled(json@)->Array_0);
            close_value(Shape::Array(out))
        },
        Json::Object(fields) => {
            let mut out: Vec<(String, serde_json::Value)> = Vec::new();
            let mut i: usize = 0;
            proof {
                lemma_object_view(*fields);
            }
            while i < fields.len()
                invariant
                    i <= fields@.len(),
                    out@.len() == i,
                    *json == Json::Object(*fields),
                    tidy(json@),
                    json@ == JsonModel::Object(fields_of(fields@)),
                    forall|j: int|
                        0 <= j < i ==> (#[trigger] out@[j]).0@ == fields@[j].0@ && value_model(
                            out@[j].1,
                        ) == settled(fields@[j].1@) && plain(value_model(out@[j].1)),
                decreases fields@.len() - i,
            {
                proof {
                    lemma_field_smaller(*json, *fields, i as int);
                    assert(fields_of(fields@)[i as int].1 == fields@[i as int].1@);
                }
                let field = &fields[i];
                out.push((field.0.clone(), to_value(&field.1)));
                i += 1;
            }
            let ghost shape = Shape::Object(out);
            assert(shape_model(shape)->Object_0 =~= settled(json@)->Object_0);
            assert(keys_of(shape_model(shape)->Object_0) =~= keys_of(fields_of(fields@)));
            close_value(Shape::Object(out))
        },
    }
}

/// The text of a document whose objects repeat no key.
pub open spec fn printed(m: JsonModel) -> Seq<char> {
    json_text(settled(m))
}

/// The indented text of a document whose objects repeat no key.
pub open spec fn printed_pretty(m: JsonModel) -> Seq<char> {
    json_pretty(settled(m))
}

impl Json {
    /// Prints a document on one line.
    pub fn print(&self) -> (r: String)
        requires
            tidy(self@),
        ensures
            r@ == printed(self@),
            !r@.contains('\n'),
            !r@.contains('\r'),
            !crate::text::all_space(r@),
            plain(settled(self@)),
            exact(self@, depth_limit()) ==> json_read(vstd::utf8::encode_utf8(r@)) == Some(self@),
    {
        let value = to_value(self);
        proof {
            if exact(self@, depth_limit()) {
                lemma_settled_exact(self@, depth_limit());
            }
        }
        write_value(&value)
    }

    /// Prints a document over several lines, indented.
    pub fn print_pretty(&self) -> (r: String)
        requires
            tidy(self@),
        ensures
            r@ == printed_pretty(self@),
            exact(self@, depth_limit()) ==> json_read(vstd::utf8::encode_utf8(r@)) == Some(self@),
    {
        let value = to_value(self);
        proof {
            if exact(self@, depth_limit()) {
                lemma_settled_exact(self@, depth_limit());
            }
        }
        write_pretty(&value)
    }

    /// Reads a document from bytes with its fields as written, or tells why
    /// they are no JSON.
    pub fn try_read(bytes: &[u8]) -> (r: Result<Json, String>)
        ensures
            json_reading(bytes@) == match r {
                Ok(json) => Ok::<JsonModel, Seq<char>>(json@),
                Err(trouble) => Err(trouble@),
            },
            r is Ok ==> tidy(r->Ok_0@),
    {
        match read_value(bytes) {
            Ok(v) => Ok(from_value(v)),
            Err(trouble) => Err(trouble),
        }
    }

    /// Reads a document from bytes, where they are JSON, with its fields as
    /// written.
    pub fn read(bytes: &[u8]) -> (r: Option<Json>)
        ensures
            r is Some <==> json_read(bytes@) is Some,
            r is Some ==> r->0@ == json_read(bytes@)->0 && tidy(r->0@),
    {
        match Json::try_read(bytes) {
            Ok(json) => Some(json),
            Err(_) => None,
        }
    }

    /// Reads a document from bytes, where they are JSON, with the fields of
    /// every object in key order.
    pub fn parse(bytes: &[u8]) -> (r: Option<Json>)
        ensures
            r is Some <==> json_read(bytes@) is Some,
            r is Some ==> r->0@ == ordered(json_read(bytes@)->0),
    {
        match Json::read(bytes) {
            Some(json) => Some(json.ordered()),
            None => None,
        }
    }
}

/// The order of an object's fields is immaterial: objects with the same value
/// under every key have the same ordered form.
pub proof fn lemma_order_immaterial(
    x: Seq<(Seq<char>, JsonModel)>,
    y: Seq<(Seq<char>, JsonModel)>,
)
    requires
        forall|key: Seq<char>| #[trigger] lookup(x, key) == lookup(y, key),
    ensures
        ordered(JsonModel::Object(x)) == ordered(JsonModel::Object(y)),
{
    assert forall|key: Seq<char>| #[trigger] keys_of(x).contains(key) <==> keys_of(y).contains(
        key,
    ) by {
        lemma_has_key(x, key);
        lemma_has_key(y, key);
        assert(lookup(x, key) == lookup(y, key));
    }
    crate::text::lemma_distinct_same(keys_of(x), keys_of(y));
    let keys = crate::text::distinct(keys_of(x));
    let a = ordered(JsonModel::Object(x))->Object_0;
    let b = ordered(JsonModel::Object(y))->Object_0;
    assert forall|i: int| 0 <= i < keys.len() implies a[i] == b[i] by {
        lemma_key_found(x, i);
        lemma_key_found(y, i);
        assert(lookup(x, keys[i]) == lookup(y, keys[i]));
    }
    assert(a =~= b);
}

/// A key has a value exactly where it is among the keys.
pub proof fn lemma_has_key(fields: Seq<(Seq<char>, JsonModel)>, key: Seq<char>)
    ensures
        keys_of(fields).contains(key) <==> lookup(fields, key) is Some,
{
    lemma_field_index(fields, key);
    if keys_of(fields).contains(key) {
        let i = choose|i: int| 0 <= i < keys_of(fields).len() && keys_of(fields)[i] == key;
        assert(fields[i].0 == key);
    } else if lookup(fields, key) is Some {
        assert(keys_of(fields)[field_index(fields, key)] == key);
    }
}

/// Whether `null` stands anywhere in a document.
pub open spec fn holds_null(m: JsonModel) -> bool
    decreases m,
{
    match m {
        JsonModel::Null => true,
        JsonModel::Array(items) => exists|i: int|
            0 <= i < items.len() && holds_null(#[trigger] items[i]),
        JsonModel::Object(fields) => exists|i: int|
            0 <= i < fields.len() && holds_null((#[trigger] fields[i]).1),
        _ => false,
    }
}

impl Json {
    /// Reads a document from TOML, or tells what is wrong with it.
    pub fn from_toml(text: &str) -> (r: Result<Json, String>)
        ensures
            toml_reading(text@) == match r {
                Ok(json) => Ok::<JsonModel, Seq<char>>(json@),
                Err(trouble) => Err(trouble@),
            },
    {
        match read_toml(text) {
            Ok(v) => Ok(from_value(v)),
            Err(e) => Err(e),
        }
    }

    /// Whether `null` stands anywhere in this document.
    pub fn has_null(&self) -> (r: bool)
        ensures
            r == holds_null(self@),
        decreases self,
    {
        match self {
            Json::Null => true,
            Json::Array(items) => {
                proof {
                    lemma_array_view(*items);
                }
                let mut i: usize = 0;
                while i < items.len()
                    invariant
                        i <= items@.len(),
                        *self == Json::Array(*items),
                        self@ == JsonModel::Array(items_of(items@)),
                        forall|j: int| 0 <= j < i ==> !holds_null(#[trigger] items_of(items@)[j]),
                    decreases items@.len() - i,
                {
                    proof {
                        lemma_item_smaller(*self, *items, i as int);
                    }
                    assert(items_of(items@)[i as int] == items@[i as int]@);
                    if items[i].has_null() {
                        assert(holds_null(self@->Array_0[i as int]));
                        return true;
                    }
                    i += 1;
                }
                false
            },
            Json::Object(fields) => {
                proof {
                    lemma_object_view(*fields);
                }
                let mut i: usize = 0;
                while i < fields.len()
                    invariant
                        i <= fields@.len(),
                        *self == Json::Object(*fields),
                        self@ == JsonModel::Object(fields_of(fields@)),
                        forall|j: int|
                            0 <= j < i ==> !holds_null((#[trigger] fields_of(fields@)[j]).1),
                    decreases fields@.len() - i,
                {
                    let field = &fields[i];
                    proof {
                        lemma_field_smaller(*self, *fields, i as int);
                    }
                    assert(fields_of(fields@)[i as int].1 == fields@[i as int].1@);
                    if field.1.has_null() {
                        assert(holds_null(self@->Object_0[i as int].1));
                        return true;
                    }
                    i += 1;
                }
                false
            },
            _ => false,
        }
    }
}

} // verus!
