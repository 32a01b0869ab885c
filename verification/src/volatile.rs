//! Which requests are the same effect by default: those that agree but for what
//! a provider or its library puts in anew on every attempt.

use crate::canon::{
    canonical, covers, default_paths, identity_of, lemma_rest_kept, lemma_volatile_immaterial,
    names, redacted, same_shape, value_at, Place,
};
use crate::event::RequestModel;
use crate::json::{
    field_index, get, keys_of, lemma_field_index, lemma_has_key, lemma_ordered_get, lookup,
    ordered, JsonModel,
};
use crate::text::{distinct, lemma_distinct, lemma_distinct_same, pieces, precedes};
use vstd::prelude::*;

verus! {

/// Whether two documents agree but for what a path reaches: keys in turn, `*`
/// for every key and every item.
pub open spec fn agree_but(a: JsonModel, b: JsonModel, path: Seq<Seq<char>>) -> bool
    decreases path.len(),
{
    if path.len() == 0 {
        true
    } else {
        let inner = path.skip(1);
        match (a, b) {
            (JsonModel::Object(x), JsonModel::Object(y)) => forall|key: Seq<char>|
                if path[0] == "*"@ || key == path[0] {
                    (#[trigger] lookup(x, key) is Some <==> lookup(y, key) is Some) && (lookup(
                        x,
                        key,
                    ) is Some ==> agree_but(lookup(x, key)->0, lookup(y, key)->0, inner))
                } else {
                    lookup(x, key) == lookup(y, key)
                },
            (JsonModel::Array(x), JsonModel::Array(y)) => x.len() == y.len() && forall|i: int|
                0 <= i < x.len() ==> if path[0] == "*"@ {
                    agree_but(#[trigger] x[i], y[i], inner)
                } else {
                    x[i] == y[i]
                },
            _ => a == b,
        }
    }
}

proof fn lemma_ordered_shape(fields: Seq<(Seq<char>, JsonModel)>, i: int)
    requires
        0 <= i < distinct(keys_of(fields)).len(),
    ensures
        ({
            let keys = distinct(keys_of(fields));
            let out = ordered(JsonModel::Object(fields))->Object_0;
            &&& out.len() == keys.len()
            &&& lookup(fields, keys[i]) is Some
            &&& out[i] == (keys[i], ordered(lookup(fields, keys[i])->0))
            &&& field_index(out, keys[i]) == i
        }),
{
    let keys = distinct(keys_of(fields));
    let out = ordered(JsonModel::Object(fields))->Object_0;
    lemma_distinct(keys_of(fields));
    assert(keys.contains(keys[i]));
    lemma_has_key(fields, keys[i]);
    lemma_field_index(fields, keys[i]);
    assert forall|j: int| 0 <= j < out.len() implies (#[trigger] out[j]).0 == keys[j] by {
        assert(keys.contains(keys[j]));
        lemma_has_key(fields, keys[j]);
        lemma_field_index(fields, keys[j]);
    }
    lemma_field_index(out, keys[i]);
    let o = field_index(out, keys[i]);
    assert(out[i].0 == keys[i]);
    assert(o >= i);
    if o != i {
        assert(keys[o] == keys[i]);
        assert(precedes(keys[i], keys[o]));
        crate::text::lemma_precedes_asymmetric(keys[i], keys[o]);
    }
}

/// Blotting out what a path reaches leaves the same of documents that agree but
/// for that.
proof fn lemma_blotted_same(a: JsonModel, b: JsonModel, path: Seq<Seq<char>>)
    requires
        agree_but(a, b, path),
    ensures
        redacted(ordered(a), path) == redacted(ordered(b), path),
    decreases path.len(),
{
    if path.len() > 0 {
        let head = path[0];
        let inner = path.skip(1);
        match (a, b) {
            (JsonModel::Object(x), JsonModel::Object(y)) => {
                let (ox, oy) = (ordered(a)->Object_0, ordered(b)->Object_0);
                let (p, q) = (
                    redacted(ordered(a), path)->Object_0,
                    redacted(ordered(b), path)->Object_0,
                );
                assert forall|key: Seq<char>| #[trigger] keys_of(x).contains(key) <==> keys_of(
                    y,
                ).contains(key) by {
                    lemma_has_key(x, key);
                    lemma_has_key(y, key);
                    assert(lookup(x, key) is Some <==> lookup(y, key) is Some);
                }
                lemma_distinct_same(keys_of(x), keys_of(y));
                let keys = distinct(keys_of(x));
                if keys.len() > 0 {
                    lemma_ordered_shape(x, 0);
                    lemma_ordered_shape(y, 0);
                }
                assert(ox.len() == keys.len() && oy.len() == keys.len());
                assert forall|i: int| 0 <= i < keys.len() implies #[trigger] p[i] == q[i] by {
                    lemma_ordered_shape(x, i);
                    lemma_ordered_shape(y, i);
                    let key = keys[i];
                    let (v, w) = (lookup(x, key)->0, lookup(y, key)->0);
                    assert(ox[i] == (key, ordered(v)) && oy[i] == (key, ordered(w)));
                    lemma_head_index(x, head, i);
                    lemma_head_index(y, head, i);
                    if head == "*"@ || key == head {
                        assert(agree_but(v, w, inner));
                        lemma_blotted_same(v, w, inner);
                    } else {
                        assert(v == w);
                    }
                }
                assert(p =~= q);
            },
            (JsonModel::Array(x), JsonModel::Array(y)) => {
                let (p, q) = (
                    redacted(ordered(a), path)->Array_0,
                    redacted(ordered(b), path)->Array_0,
                );
                assert forall|i: int| 0 <= i < x.len() implies #[trigger] p[i] == q[i] by {
                    if head == "*"@ {
                        assert(agree_but(x[i], y[i], inner));
                        lemma_blotted_same(x[i], y[i], inner);
                    } else {
                        assert(x[i] == y[i]);
                    }
                }
                assert(p =~= q);
            },
            _ => {},
        }
    }
}

proof fn lemma_head_index(fields: Seq<(Seq<char>, JsonModel)>, head: Seq<char>, i: int)
    requires
        0 <= i < distinct(keys_of(fields)).len(),
    ensures
        field_index(ordered(JsonModel::Object(fields))->Object_0, head) == i <==> distinct(
            keys_of(fields),
        )[i] == head,
{
    let keys = distinct(keys_of(fields));
    let out = ordered(JsonModel::Object(fields))->Object_0;
    lemma_ordered_shape(fields, i);
    lemma_field_index(out, head);
    let o = field_index(out, head);
    if o == i {
        assert(out[o].0 == head);
    }
}

// ---------------------------------------------------------------------------
// Paths
// ---------------------------------------------------------------------------

proof fn lemma_one_piece(s: Seq<char>)
    requires
        !s.contains('.'),
    ensures
        pieces(s, '.') == seq![s],
    decreases s.len(),
{
    if s.len() > 0 {
        let most = s.drop_last();
        assert forall|i: int| 0 <= i < most.len() implies most[i] != '.' by {
            assert(s.contains(s[i]));
        }
        assert(!most.contains('.'));
        lemma_one_piece(most);
        assert(s.contains(s[s.len() - 1]));
        assert(pieces(s, '.') =~= seq![s]) by {
            assert(most.push(s.last()) =~= s);
        }
    } else {
        assert(s =~= seq![]);
    }
}

proof fn lemma_more_pieces(a: Seq<char>, s: Seq<char>)
    requires
        !s.contains('.'),
    ensures
        pieces(a + seq!['.'] + s, '.') == pieces(a, '.').push(s),
    decreases s.len(),
{
    let whole = a + seq!['.'] + s;
    if s.len() == 0 {
        assert(whole.drop_last() =~= a);
        assert(whole.last() == '.');
        assert(s =~= seq![]);
    } else {
        let most = s.drop_last();
        assert forall|i: int| 0 <= i < most.len() implies most[i] != '.' by {
            assert(s.contains(s[i]));
        }
        assert(!most.contains('.'));
        lemma_more_pieces(a, most);
        assert(whole.drop_last() =~= a + seq!['.'] + most);
        assert(whole.last() == s.last());
        assert(s.contains(s[s.len() - 1]));
        assert(most.push(s.last()) =~= s);
        assert(pieces(whole, '.') =~= pieces(a, '.').push(s));
    }
}

/// The places that are volatile by default, key by key: ids that a provider
/// mints for each attempt, what the wall clock leaves, and what concerns the
/// transport alone.
pub open spec fn volatile_by_default(path: Seq<Seq<char>>) -> bool {
    ||| path == seq!["id"@]
    ||| path == seq!["request_id"@]
    ||| path == seq!["tool_call_id"@]
    ||| path == seq!["messages"@, "*"@, "tool_call_id"@]
    ||| path == seq!["messages"@, "*"@, "content"@, "*"@, "tool_use_id"@]
    ||| path == seq!["messages"@, "*"@, "content"@, "*"@, "id"@]
    ||| path == seq!["created"@]
    ||| path == seq!["created_at"@]
    ||| path == seq!["timestamp"@]
    ||| path == seq!["metadata"@, "timestamp"@]
    ||| path == seq!["stream_options"@]
    ||| path == seq!["user"@]
}

proof fn lemma_single_paths()
    ensures
        pieces("id"@, '.') == seq!["id"@],
        pieces("request_id"@, '.') == seq!["request_id"@],
        pieces("tool_call_id"@, '.') == seq!["tool_call_id"@],
        pieces("created"@, '.') == seq!["created"@],
        pieces("created_at"@, '.') == seq!["created_at"@],
        pieces("timestamp"@, '.') == seq!["timestamp"@],
        pieces("stream_options"@, '.') == seq!["stream_options"@],
        pieces("user"@, '.') == seq!["user"@],
{
    reveal_strlit("id");
    reveal_strlit("request_id");
    reveal_strlit("tool_call_id");
    reveal_strlit("created");
    reveal_strlit("created_at");
    reveal_strlit("timestamp");
    reveal_strlit("stream_options");
    reveal_strlit("user");
    lemma_one_piece("id"@);
    lemma_one_piece("request_id"@);
    lemma_one_piece("tool_call_id"@);
    lemma_one_piece("created"@);
    lemma_one_piece("created_at"@);
    lemma_one_piece("timestamp"@);
    lemma_one_piece("stream_options"@);
    lemma_one_piece("user"@);
}

proof fn lemma_metadata_path()
    ensures
        pieces("metadata.timestamp"@, '.') == seq!["metadata"@, "timestamp"@],
{
    reveal_strlit("metadata.timestamp");
    reveal_strlit("metadata");
    reveal_strlit("timestamp");
    lemma_one_piece("metadata"@);
    lemma_more_pieces("metadata"@, "timestamp"@);
    assert("metadata.timestamp"@ =~= "metadata"@ + seq!['.'] + "timestamp"@);
    assert(seq!["metadata"@].push("timestamp"@) =~= seq!["metadata"@, "timestamp"@]);
}

proof fn lemma_message_path()
    ensures
        pieces("messages.*.tool_call_id"@, '.') == seq!["messages"@, "*"@, "tool_call_id"@],
{
    reveal_strlit("messages.*.tool_call_id");
    reveal_strlit("messages");
    reveal_strlit("*");
    reveal_strlit("tool_call_id");
    lemma_one_piece("messages"@);
    let two = "messages"@ + seq!['.'] + "*"@;
    lemma_more_pieces("messages"@, "*"@);
    lemma_more_pieces(two, "tool_call_id"@);
    assert("messages.*.tool_call_id"@ =~= two + seq!['.'] + "tool_call_id"@);
    assert(seq!["messages"@].push("*"@).push("tool_call_id"@) =~= seq![
        "messages"@,
        "*"@,
        "tool_call_id"@,
    ]);
}

proof fn lemma_content_path(last: Seq<char>)
    requires
        !last.contains('.'),
    ensures
        pieces("messages.*.content.*."@ + last, '.') == seq![
            "messages"@,
            "*"@,
            "content"@,
            "*"@,
            last,
        ],
{
    reveal_strlit("messages.*.content.*.");
    reveal_strlit("messages");
    reveal_strlit("*");
    reveal_strlit("content");
    lemma_one_piece("messages"@);
    let two = "messages"@ + seq!['.'] + "*"@;
    let three = two + seq!['.'] + "content"@;
    let four = three + seq!['.'] + "*"@;
    lemma_more_pieces("messages"@, "*"@);
    lemma_more_pieces(two, "content"@);
    lemma_more_pieces(three, "*"@);
    lemma_more_pieces(four, last);
    assert("messages.*.content.*."@ =~= four + seq!['.']);
    assert("messages.*.content.*."@ + last =~= four + seq!['.'] + last);
    assert(seq!["messages"@].push("*"@).push("content"@).push("*"@).push(last) =~= seq![
        "messages"@,
        "*"@,
        "content"@,
        "*"@,
        last,
    ]);
}

proof fn lemma_content_paths()
    ensures
        pieces("messages.*.content.*.tool_use_id"@, '.') == seq![
            "messages"@,
            "*"@,
            "content"@,
            "*"@,
            "tool_use_id"@,
        ],
        pieces("messages.*.content.*.id"@, '.') == seq![
            "messages"@,
            "*"@,
            "content"@,
            "*"@,
            "id"@,
        ],
{
    reveal_strlit("messages.*.content.*.tool_use_id");
    reveal_strlit("messages.*.content.*.id");
    reveal_strlit("messages.*.content.*.");
    reveal_strlit("tool_use_id");
    reveal_strlit("id");
    lemma_content_path("tool_use_id"@);
    lemma_content_path("id"@);
    assert("messages.*.content.*.tool_use_id"@ =~= "messages.*.content.*."@ + "tool_use_id"@);
    assert("messages.*.content.*.id"@ =~= "messages.*.content.*."@ + "id"@);
}

/// The default paths are those and no others.
proof fn lemma_default_paths(path: Seq<Seq<char>>)
    ensures
        volatile_by_default(path) <==> exists|k: int|
            0 <= k < default_paths().len() && #[trigger] pieces(default_paths()[k], '.') == path,
{
    let d = default_paths();
    lemma_single_paths();
    lemma_metadata_path();
    lemma_message_path();
    lemma_content_paths();
    if volatile_by_default(path) {
        if path == pieces(d[0], '.') {
        } else if path == pieces(d[1], '.') {
        } else if path == pieces(d[2], '.') {
        } else if path == pieces(d[3], '.') {
        } else if path == pieces(d[4], '.') {
        } else if path == pieces(d[5], '.') {
        } else if path == pieces(d[6], '.') {
        } else if path == pieces(d[7], '.') {
        } else if path == pieces(d[8], '.') {
        } else if path == pieces(d[9], '.') {
        } else if path == pieces(d[10], '.') {
        } else {
            assert(path == pieces(d[11], '.'));
        }
    }
    if exists|k: int| 0 <= k < d.len() && #[trigger] pieces(d[k], '.') == path {
        let k = choose|k: int| 0 <= k < d.len() && #[trigger] pieces(d[k], '.') == path;
        assert(k == 0 || k == 1 || k == 2 || k == 3 || k == 4 || k == 5 || k == 6 || k == 7 || k
            == 8 || k == 9 || k == 10 || k == 11);
    }
}

/// Under the default policy, requests of the same kind and name are the same
/// effect where their bodies agree but for what is at a volatile place.
pub proof fn lemma_noise_is_ignored(
    r: RequestModel,
    a: JsonModel,
    b: JsonModel,
    path: Seq<Seq<char>>,
)
    requires
        volatile_by_default(path),
        agree_but(a, b, path),
    ensures
        identity_of(default_paths(), RequestModel { body: a, ..r }) == identity_of(
            default_paths(),
            RequestModel { body: b, ..r },
        ),
{
    lemma_default_paths(path);
    let k = choose|k: int|
        0 <= k < default_paths().len() && #[trigger] pieces(default_paths()[k], '.') == path;
    lemma_blotted_same(a, b, path);
    lemma_volatile_immaterial(default_paths(), k, r, a, b);
}

/// Under the default policy, what an agent stamps on a request does not make it
/// another effect: bodies that hold the same under every key but one for ids or
/// for times are the same effect.
pub proof fn lemma_stamps_are_ignored(
    r: RequestModel,
    x: Seq<(Seq<char>, JsonModel)>,
    y: Seq<(Seq<char>, JsonModel)>,
    stamp: Seq<char>,
)
    requires
        stamp == "id"@ || stamp == "request_id"@ || stamp == "tool_call_id"@ || stamp == "created"@
            || stamp == "created_at"@ || stamp == "timestamp"@ || stamp == "stream_options"@
            || stamp == "user"@,
        lookup(x, stamp) is Some <==> lookup(y, stamp) is Some,
        forall|key: Seq<char>| key != stamp ==> #[trigger] lookup(x, key) == lookup(y, key),
    ensures
        identity_of(default_paths(), RequestModel { body: JsonModel::Object(x), ..r })
            == identity_of(default_paths(), RequestModel { body: JsonModel::Object(y), ..r }),
{
    let (a, b) = (JsonModel::Object(x), JsonModel::Object(y));
    let path = seq![stamp];
    assert(volatile_by_default(path));
    assert(stamp != "*"@) by {
        reveal_strlit("*");
        reveal_strlit("id");
        reveal_strlit("request_id");
        reveal_strlit("tool_call_id");
        reveal_strlit("created");
        reveal_strlit("created_at");
        reveal_strlit("timestamp");
        reveal_strlit("stream_options");
        reveal_strlit("user");
        assert("*"@.len() == 1);
        assert(stamp.len() > 1);
    }
    assert(path.skip(1).len() == 0);
    assert(agree_but(a, b, path)) by {
        assert forall|key: Seq<char>| key == stamp implies agree_but(
            #[trigger] lookup(x, key)->0,
            lookup(y, key)->0,
            path.skip(1),
        ) by {}
    }
    lemma_noise_is_ignored(r, a, b, path);
}

/// Everything else tells effects apart by default: what a request holds under
/// any other key that is no object and no list stands in its canonical form as
/// it was.
pub proof fn lemma_content_counts(m: JsonModel, key: Seq<char>)
    requires
        !volatile_by_default(seq![key]),
        get(m, key) is Some,
    ensures
        get(canonical(default_paths(), m), key) is Some,
        same_shape(ordered(get(m, key)->0), get(canonical(default_paths(), m), key)->0),
        !(get(m, key)->0 is Object || get(m, key)->0 is Array) ==> get(
            canonical(default_paths(), m),
            key,
        ) == get(m, key),
{
    let place = seq![Place::Key { key }];
    lemma_ordered_get(m, key);
    assert(place.skip(1) =~= seq![]);
    lemma_value_under(ordered(m), key);
    lemma_value_under(canonical(default_paths(), m), key);
    assert forall|k: int| 0 <= k < default_paths().len() implies !covers(
        #[trigger] pieces(default_paths()[k], '.'),
        place,
    ) by {
        let path = pieces(default_paths()[k], '.');
        lemma_default_paths(path);
        assert(volatile_by_default(path));
        if covers(path, place) {
            assert(path.len() == 1);
            assert(place.take(1) =~= place);
            assert(names(path[0], place[0]));
            assert(path =~= seq![path[0]]);
            lemma_no_star(path[0]);
            assert(path =~= seq![key]);
        }
    }
    lemma_rest_kept(default_paths(), m, place);
}

proof fn lemma_no_star(head: Seq<char>)
    requires
        volatile_by_default(seq![head]),
    ensures
        head != "*"@,
{
    reveal_strlit("*");
    reveal_strlit("id");
    reveal_strlit("request_id");
    reveal_strlit("tool_call_id");
    reveal_strlit("created");
    reveal_strlit("created_at");
    reveal_strlit("timestamp");
    reveal_strlit("stream_options");
    reveal_strlit("user");
    let path = seq![head];
    assert(path.len() == 1);
    assert(seq!["metadata"@, "timestamp"@].len() == 2);
    assert(seq!["messages"@, "*"@, "tool_call_id"@].len() == 3);
    assert(seq!["messages"@, "*"@, "content"@, "*"@, "tool_use_id"@].len() == 5);
    assert(seq!["messages"@, "*"@, "content"@, "*"@, "id"@].len() == 5);
    assert(path[0] == head);
    assert(seq!["id"@][0] == "id"@ && seq!["request_id"@][0] == "request_id"@);
    assert(seq!["tool_call_id"@][0] == "tool_call_id"@ && seq!["created"@][0] == "created"@);
    assert(seq!["created_at"@][0] == "created_at"@ && seq!["timestamp"@][0] == "timestamp"@);
    assert(seq!["stream_options"@][0] == "stream_options"@ && seq!["user"@][0] == "user"@);
    assert("*"@.len() == 1);
    assert(head.len() > 1);
}

proof fn lemma_value_under(m: JsonModel, key: Seq<char>)
    ensures
        value_at(m, seq![Place::Key { key }]) == get(m, key),
{
    let place = seq![Place::Key { key }];
    reveal_with_fuel(value_at, 2);
    assert(place.skip(1) =~= seq![]);
    assert(place[0] == Place::Key { key });
}

/// What a volatile field is replaced by begins with a character that no ordinary
/// text begins with, so that no content is taken for it.
pub proof fn lemma_marker_apart(content: Seq<char>)
    requires
        content.len() == 0 || content[0] != '\u{0}',
    ensures
        crate::canon::marker() != content,
        crate::canon::marker()[0] == '\u{0}',
{
    reveal_strlit("\u{0}samsara:volatile");
    assert("\u{0}samsara:volatile"@.len() == 17);
    assert("\u{0}samsara:volatile"@[0] == '\u{0}');
}

} // verus!
