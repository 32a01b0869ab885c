//! Canonicalisation: turning a request into a stable identity.
//!
//! On replay, the effect an agent asks for now must be recognised as one it
//! asked for when the run was recorded. Comparing bytes is too strict: a
//! faithful run differs in freshly minted ids and timestamps. So an effect's
//! identity is the hash of its request with a declared set of volatile paths
//! blotted out and object keys in order. The set is part of a trace's header.

use crate::event::{kind_name, EffectKind, EffectRequest, RequestModel};
use crate::hash::{blake3_hex, is_full, Digest};
use crate::json::{
    depth_limit, exact, field_index, fields_of, items_of, json_read, json_text, keys_of, ordered,
    plain, printed, settled, string_text, tidy, Json, JsonModel,
};
use crate::layout::{
    lemma_strings_apart, lemma_text_whole, lemma_three_fields, lemma_three_fields_apart,
    three_fields,
};
use crate::text::{copy_list, parse_number, pieces, read_number, same, split, texts};
use vstd::prelude::*;
use vstd::utf8::encode_utf8;

verus! {

/// A path into a document: keys separated by dots, `*` for any key or index.
pub type VolatilePath = String;

/// The volatile paths applied when computing identities.
#[derive(Debug, PartialEq, Eq)]
pub struct Canonicalizer {
    /// Paths whose values are replaced by a marker before hashing.
    pub volatile: Vec<VolatilePath>,
}

impl View for Canonicalizer {
    type V = Seq<Seq<char>>;

    open spec fn view(&self) -> Seq<Seq<char>> {
        texts(self.volatile@)
    }
}

impl Clone for Canonicalizer {
    fn clone(&self) -> (r: Self)
        ensures
            r@ == self@,
    {
        Canonicalizer { volatile: copy_list(&self.volatile) }
    }
}

/// The paths that provider SDKs vary between otherwise identical requests:
/// ids minted per attempt, wall-clock leakage, and transport noise.
pub open spec fn default_paths() -> Seq<Seq<char>> {
    seq![
        "id"@,
        "request_id"@,
        "tool_call_id"@,
        "messages.*.tool_call_id"@,
        "messages.*.content.*.tool_use_id"@,
        "messages.*.content.*.id"@,
        "created"@,
        "created_at"@,
        "timestamp"@,
        "metadata.timestamp"@,
        "stream_options"@,
        "user"@,
    ]
}

impl Default for Canonicalizer {
    fn default() -> (r: Self)
        ensures
            r@ == default_paths(),
    {
        let mut volatile: Vec<String> = Vec::new();
        volatile.push("id".to_owned());
        volatile.push("request_id".to_owned());
        volatile.push("tool_call_id".to_owned());
        volatile.push("messages.*.tool_call_id".to_owned());
        volatile.push("messages.*.content.*.tool_use_id".to_owned());
        volatile.push("messages.*.content.*.id".to_owned());
        volatile.push("created".to_owned());
        volatile.push("created_at".to_owned());
        volatile.push("timestamp".to_owned());
        volatile.push("metadata.timestamp".to_owned());
        volatile.push("stream_options".to_owned());
        volatile.push("user".to_owned());
        assert(texts(volatile@) =~= default_paths());
        Canonicalizer { volatile }
    }
}

/// What stands for a blotted-out value. No provider sends its NUL character,
/// so a marker is never mistaken for content.
pub open spec fn marker() -> Seq<char> {
    "\u{0}samsara:volatile"@
}

/// A document with whatever a path reaches replaced by the marker. A path
/// that reaches nothing changes nothing.
pub open spec fn redacted(m: JsonModel, path: Seq<Seq<char>>) -> JsonModel
    decreases path.len(),
{
    if path.len() == 0 {
        JsonModel::Text(marker())
    } else {
        let head = path[0];
        let rest = path.skip(1);
        match m {
            JsonModel::Object(fields) => {
                let at = field_index(fields, head);
                JsonModel::Object(
                    Seq::new(
                        fields.len(),
                        |i: int|
                            if head == "*"@ || i == at {
                                (fields[i].0, redacted(fields[i].1, rest))
                            } else {
                                fields[i]
                            },
                    ),
                )
            },
            JsonModel::Array(items) => {
                let at = read_number(head, usize::MAX as nat);
                JsonModel::Array(
                    Seq::new(
                        items.len(),
                        |i: int|
                            if head == "*"@ || at == Some(i as nat) {
                                redacted(items[i], rest)
                            } else {
                                items[i]
                            },
                    ),
                )
            },
            _ => m,
        }
    }
}

/// A document with what each of the paths reaches replaced by the marker.
pub open spec fn redacted_all(m: JsonModel, paths: Seq<Seq<char>>) -> JsonModel
    decreases paths.len(),
{
    if paths.len() == 0 {
        m
    } else {
        redacted(redacted_all(m, paths.drop_last()), pieces(paths.last(), '.'))
    }
}

/// The canonical form of a document under a set of volatile paths.
pub open spec fn canonical(paths: Seq<Seq<char>>, m: JsonModel) -> JsonModel {
    redacted_all(ordered(m), paths)
}

/// What an effect's identity is taken from: its kind, its target, and its
/// body in canonical form.
pub open spec fn envelope(
    paths: Seq<Seq<char>>,
    kind: Seq<char>,
    name: Seq<char>,
    body: JsonModel,
) -> JsonModel {
    JsonModel::Object(
        seq![
            ("body"@, canonical(paths, body)),
            ("kind"@, JsonModel::Text(kind)),
            ("name"@, JsonModel::Text(name)),
        ],
    )
}

/// The digest of a document's bytes.
pub open spec fn digest_of(m: JsonModel) -> Seq<char> {
    blake3_hex(encode_utf8(printed(m)))
}

/// The identity of a request under a set of volatile paths.
pub open spec fn identity_of(paths: Seq<Seq<char>>, r: RequestModel) -> Seq<char> {
    digest_of(envelope(paths, kind_name(r.kind), r.name, r.body))
}

/// Blotting out repeats no key.
pub proof fn lemma_redacted_tidy(m: JsonModel, path: Seq<Seq<char>>)
    requires
        tidy(m),
    ensures
        tidy(redacted(m, path)),
    decreases path.len(),
{
    if path.len() > 0 {
        let rest = path.skip(1);
        match m {
            JsonModel::Object(fields) => {
                let out = redacted(m, path)->Object_0;
                assert(keys_of(out) =~= keys_of(fields));
                assert forall|i: int| 0 <= i < out.len() implies tidy((#[trigger] out[i]).1) by {
                    assert(tidy(fields[i].1));
                    lemma_redacted_tidy(fields[i].1, rest);
                }
            },
            JsonModel::Array(items) => {
                let out = redacted(m, path)->Array_0;
                assert forall|i: int| 0 <= i < out.len() implies tidy(#[trigger] out[i]) by {
                    assert(tidy(items[i]));
                    lemma_redacted_tidy(items[i], rest);
                }
            },
            _ => {},
        }
    }
}

/// A canonical form repeats no key.
pub proof fn lemma_canonical_tidy(paths: Seq<Seq<char>>, m: JsonModel)
    ensures
        tidy(canonical(paths, m)),
    decreases paths.len(),
{
    if paths.len() == 0 {
        crate::json::lemma_ordered_tidy(m);
    } else {
        lemma_canonical_tidy(paths.drop_last(), m);
        lemma_redacted_tidy(
            redacted_all(ordered(m), paths.drop_last()),
            pieces(paths.last(), '.'),
        );
    }
}

proof fn lemma_envelope_tidy(
    paths: Seq<Seq<char>>,
    kind: Seq<char>,
    name: Seq<char>,
    body: JsonModel,
)
    ensures
        tidy(envelope(paths, kind, name, body)),
{
    lemma_canonical_tidy(paths, body);
    reveal_strlit("body");
    reveal_strlit("kind");
    reveal_strlit("name");
    let fields = envelope(paths, kind, name, body)->Object_0;
    assert(keys_of(fields) =~= seq!["body"@, "kind"@, "name"@]);
    assert("body"@[0] == 'b' && "kind"@[0] == 'k' && "name"@[0] == 'n');
    assert(keys_of(fields).no_duplicates());
    assert forall|i: int| 0 <= i < fields.len() implies tidy((#[trigger] fields[i]).1) by {}
}

/// Whether the bytes of a document read back as that document.
pub open spec fn reads_back(m: JsonModel) -> bool {
    json_read(encode_utf8(printed(m))) == Some(m)
}

/// Blotting out keeps a document exact.
proof fn lemma_redacted_exact(m: JsonModel, path: Seq<Seq<char>>, room: nat)
    requires
        exact(m, room),
    ensures
        exact(redacted(m, path), room),
    decreases path.len(),
{
    if path.len() > 0 {
        let rest = path.skip(1);
        match m {
            JsonModel::Object(fields) => {
                let out = redacted(m, path)->Object_0;
                assert forall|i: int| 0 <= i < out.len() implies exact(
                    (#[trigger] out[i]).1,
                    (room - 1) as nat,
                ) by {
                    assert(exact(fields[i].1, (room - 1) as nat));
                    lemma_redacted_exact(fields[i].1, rest, (room - 1) as nat);
                }
            },
            JsonModel::Array(items) => {
                let out = redacted(m, path)->Array_0;
                assert forall|i: int| 0 <= i < out.len() implies exact(
                    #[trigger] out[i],
                    (room - 1) as nat,
                ) by {
                    assert(exact(items[i], (room - 1) as nat));
                    lemma_redacted_exact(items[i], rest, (room - 1) as nat);
                }
            },
            _ => {},
        }
    }
}

/// The canonical form of an exact document is exact.
pub proof fn lemma_canonical_exact(paths: Seq<Seq<char>>, m: JsonModel, room: nat)
    requires
        exact(m, room),
    ensures
        exact(canonical(paths, m), room),
    decreases paths.len(),
{
    crate::json::lemma_ordered_exact(m, room);
    if paths.len() > 0 {
        lemma_canonical_exact(paths.drop_last(), m, room);
        lemma_redacted_exact(
            redacted_all(ordered(m), paths.drop_last()),
            pieces(paths.last(), '.'),
            room,
        );
    }
}

/// What the identity of an exact body is taken from is exact.
proof fn lemma_envelope_exact(
    paths: Seq<Seq<char>>,
    kind: Seq<char>,
    name: Seq<char>,
    body: JsonModel,
)
    requires
        exact(body, (depth_limit() - 1) as nat),
    ensures
        exact(envelope(paths, kind, name, body), depth_limit()),
{
    let room = (depth_limit() - 1) as nat;
    lemma_canonical_exact(paths, body, room);
    let fields = envelope(paths, kind, name, body)->Object_0;
    assert forall|i: int| 0 <= i < fields.len() implies exact((#[trigger] fields[i]).1, room) by {}
}

/// Replaces whatever the path behind its first `at` keys reaches by the
/// marker.
fn redact(value: &Json, path: &Vec<String>, at: usize) -> (r: Json)
    requires
        at <= path@.len(),
    ensures
        r@ == redacted(value@, texts(path@).skip(at as int)),
    decreases path@.len() - at,
{
    let ghost keys = texts(path@).skip(at as int);
    if at == path.len() {
        return Json::text("\u{0}samsara:volatile");
    }
    let ghost rest = texts(path@).skip(at + 1);
    assert(keys[0] == path@[at as int]@);
    assert(keys.skip(1) =~= rest);
    let head = path[at].as_str();
    let any = same(head, "*");
    let next: usize = at + 1;
    match value {
        Json::Object(fields) => {
            proof {
                crate::json::lemma_object_view(*fields);
            }
            let found = crate::json::find_field(fields, head);
            let ghost index = field_index(fields_of(fields@), head@);
            let mut out: Vec<(String, Json)> = Vec::new();
            let mut i: usize = 0;
            while i < fields.len()
                invariant
                    next == at + 1,
                    at < path@.len(),
                    i <= fields@.len(),
                    out@.len() == i,
                    rest == texts(path@).skip(at + 1),
                    any == (head@ == "*"@),
                    match found {
                        Some(k) => index == k,
                        None => index == -1,
                    },
                    forall|j: int|
                        0 <= j < i ==> (#[trigger] out@[j]).0@ == fields@[j].0@ && out@[j].1@
                            == if head@ == "*"@ || j == index {
                            redacted(fields@[j].1@, rest)
                        } else {
                            fields@[j].1@
                        },
                decreases fields@.len() - i,
            {
                let field = &fields[i];
                let hit = match found {
                    Some(k) => k == i,
                    None => false,
                };
                let new = if any || hit {
                    redact(&field.1, path, next)
                } else {
                    field.1.clone()
                };
                out.push((field.0.clone(), new));
                i += 1;
            }
            proof {
                crate::json::lemma_object_view(out);
                assert(fields_of(out@) =~= redacted(value@, keys)->Object_0);
            }
            Json::Object(out)
        },
        Json::Array(items) => {
            proof {
                crate::json::lemma_array_view(*items);
            }
            let found = parse_number(head, usize::MAX as u64);
            let ghost index = read_number(head@, usize::MAX as nat);
            let mut out: Vec<Json> = Vec::new();
            let mut i: usize = 0;
            while i < items.len()
                invariant
                    next == at + 1,
                    at < path@.len(),
                    i <= items@.len(),
                    out@.len() == i,
                    rest == texts(path@).skip(at + 1),
                    any == (head@ == "*"@),
                    found is Some <==> index is Some,
                    found is Some ==> found->0 == index->0,
                    forall|j: int|
                        0 <= j < i ==> (#[trigger] out@[j])@ == if head@ == "*"@ || index == Some(
                            j as nat,
                        ) {
                            redacted(items@[j]@, rest)
                        } else {
                            items@[j]@
                        },
                decreases items@.len() - i,
            {
                let hit = match found {
                    Some(k) => k == i as u64,
                    None => false,
                };
                let new = if any || hit {
                    redact(&items[i], path, next)
                } else {
                    items[i].clone()
                };
                out.push(new);
                i += 1;
            }
            proof {
                crate::json::lemma_array_view(out);
                assert(items_of(out@) =~= redacted(value@, keys)->Array_0);
            }
            Json::Array(out)
        },
        _ => value.clone(),
    }
}

impl Canonicalizer {
    /// Nothing is volatile: identity is exact.
    pub fn exact() -> (r: Self)
        ensures
            r@ == Seq::<Seq<char>>::empty(),
    {
        let volatile: Vec<String> = Vec::new();
        assert(texts(volatile@) =~= seq![]);
        Canonicalizer { volatile }
    }

    /// Add a volatile path.
    pub fn with(self, path: &str) -> (r: Self)
        ensures
            r@ == self@.push(path@),
    {
        let ghost before = self@;
        let mut volatile = self.volatile;
        volatile.push(path.to_owned());
        assert(texts(volatile@) =~= before.push(path@));
        Canonicalizer { volatile }
    }

    /// The canonical form of a value: volatile paths blotted out, object keys
    /// in order.
    pub fn canonicalize(&self, value: &Json) -> (r: Json)
        ensures
            r@ == canonical(self@, value@),
            tidy(r@),
    {
        let mut out = value.ordered();
        let mut i: usize = 0;
        assert(self@.take(0) =~= seq![]);
        while i < self.volatile.len()
            invariant
                i <= self.volatile@.len(),
                out@ == redacted_all(ordered(value@), self@.take(i as int)),
            decreases self.volatile@.len() - i,
        {
            let segments = split(self.volatile[i].as_str(), '.');
            out = redact(&out, &segments, 0);
            proof {
                assert(texts(segments@).skip(0) =~= texts(segments@));
                assert(self@.take(i + 1).drop_last() =~= self@.take(i as int));
                assert(self@.take(i + 1).last() == self.volatile@[i as int]@);
            }
            i += 1;
        }
        proof {
            assert(self@.take(i as int) =~= self@);
            lemma_canonical_tidy(self@, value@);
        }
        out
    }

    /// Canonical bytes: what is hashed.
    pub fn canonical_bytes(&self, value: &Json) -> (r: Vec<u8>)
        ensures
            r@ == encode_utf8(printed(canonical(self@, value@))),
            exact(value@, depth_limit()) ==> reads_back(canonical(self@, value@)),
    {
        proof {
            if exact(value@, depth_limit()) {
                lemma_canonical_exact(self@, value@, depth_limit());
            }
        }
        self.canonicalize(value).print().as_str().as_bytes_vec()
    }

    /// The identity of a request body alone.
    pub fn body_identity(&self, value: &Json) -> (r: Digest)
        ensures
            r@ == digest_of(canonical(self@, value@)),
            is_full(r@),
    {
        Digest::of(self.canonicalize(value).print().as_str().as_bytes())
    }

    /// The identity of a whole effect: what kind it is, what it targets, and
    /// what it asks. A body alone is no identity: two tools may be called with
    /// the same arguments.
    pub fn effect_identity(&self, kind: &str, name: &str, body: &Json) -> (r: Digest)
        ensures
            r@ == digest_of(envelope(self@, kind@, name@, body@)),
            is_full(r@),
            plain(settled(envelope(self@, kind@, name@, body@))),
            exact(body@, (depth_limit() - 1) as nat) ==> reads_back(
                envelope(self@, kind@, name@, body@),
            ),
    {
        let mut fields: Vec<(String, Json)> = Vec::new();
        fields.push(("body".to_owned(), self.canonicalize(body)));
        fields.push(("kind".to_owned(), Json::text(kind)));
        fields.push(("name".to_owned(), Json::text(name)));
        proof {
            lemma_envelope_tidy(self@, kind@, name@, body@);
            assert(fields_of(fields@) =~= envelope(self@, kind@, name@, body@)->Object_0);
            if exact(body@, (depth_limit() - 1) as nat) {
                lemma_envelope_exact(self@, kind@, name@, body@);
            }
        }
        Digest::of(Json::object(fields).print().as_str().as_bytes())
    }
}

impl EffectRequest {
    /// This effect's identity under a set of volatile paths.
    pub fn identity(&self, canon: &Canonicalizer) -> (r: Digest)
        ensures
            r@ == identity_of(canon@, self@),
            is_full(r@),
    {
        canon.effect_identity(self.kind.as_str(), self.name.as_str(), &self.body)
    }
}

// ---------------------------------------------------------------------------
// What an identity ignores, and what it does not
// ---------------------------------------------------------------------------

/// The order of the keys of a request's body does not affect its identity.
pub proof fn lemma_key_order_immaterial(
    paths: Seq<Seq<char>>,
    r: RequestModel,
    x: Seq<(Seq<char>, JsonModel)>,
    y: Seq<(Seq<char>, JsonModel)>,
)
    requires
        forall|key: Seq<char>| #[trigger]
            crate::json::lookup(x, key) == crate::json::lookup(y, key),
    ensures
        identity_of(paths, RequestModel { body: JsonModel::Object(x), ..r }) == identity_of(
            paths,
            RequestModel { body: JsonModel::Object(y), ..r },
        ),
{
    crate::json::lemma_order_immaterial(x, y);
}

/// Blotting out one path after another leaves nothing of what a later path
/// reaches: documents that agree but for that still do.
proof fn lemma_redacted_still(a: JsonModel, b: JsonModel, p: Seq<Seq<char>>, q: Seq<Seq<char>>)
    requires
        redacted(a, p) == redacted(b, p),
    ensures
        redacted(redacted(a, q), p) == redacted(redacted(b, q), p),
    decreases p.len(),
{
    if p.len() > 0 && q.len() > 0 {
        let pr = p.skip(1);
        let qr = q.skip(1);
        match a {
            JsonModel::Object(x) => {
                let y = b->Object_0;
                let left = redacted(a, p)->Object_0;
                let right = redacted(b, p)->Object_0;
                assert(b is Object);
                assert(left.len() == x.len() && right.len() == y.len() && left == right);
                let x1 = redacted(a, q)->Object_0;
                let y1 = redacted(b, q)->Object_0;
                let x2 = redacted(redacted(a, q), p)->Object_0;
                let y2 = redacted(redacted(b, q), p)->Object_0;
                assert forall|i: int| 0 <= i < x.len() implies x[i].0 == y[i].0 by {
                    assert(left[i] == right[i]);
                }
                lemma_same_index(x, y, p[0]);
                lemma_same_index(x, y, q[0]);
                lemma_same_index(x, x1, p[0]);
                lemma_same_index(y, y1, p[0]);
                assert forall|i: int| 0 <= i < x.len() implies x2[i] == y2[i] by {
                    assert(left[i] == right[i]);
                    if p[0] == "*"@ || i == field_index(x, p[0]) {
                        lemma_redacted_still(x[i].1, y[i].1, pr, qr);
                    }
                }
                assert(x2 =~= y2);
            },
            JsonModel::Array(x) => {
                let y = b->Array_0;
                let left = redacted(a, p)->Array_0;
                let right = redacted(b, p)->Array_0;
                assert(b is Array);
                assert(left.len() == x.len() && right.len() == y.len() && left == right);
                let x2 = redacted(redacted(a, q), p)->Array_0;
                let y2 = redacted(redacted(b, q), p)->Array_0;
                assert forall|i: int| 0 <= i < x.len() implies x2[i] == y2[i] by {
                    assert(left[i] == right[i]);
                    if p[0] == "*"@ || read_number(p[0], usize::MAX as nat) == Some(i as nat) {
                        lemma_redacted_still(x[i], y[i], pr, qr);
                    }
                }
                assert(x2 =~= y2);
            },
            _ => {},
        }
    }
}

/// Where a key stands depends on the keys alone.
proof fn lemma_same_index(
    x: Seq<(Seq<char>, JsonModel)>,
    y: Seq<(Seq<char>, JsonModel)>,
    key: Seq<char>,
)
    requires
        x.len() == y.len(),
        forall|i: int| 0 <= i < x.len() ==> (#[trigger] x[i]).0 == y[i].0,
    ensures
        field_index(x, key) == field_index(y, key),
    decreases x.len(),
{
    if x.len() > 0 {
        assert(x[x.len() - 1].0 == y[x.len() - 1].0);
        assert forall|i: int| 0 <= i < x.len() - 1 implies (#[trigger] x.drop_last()[i]).0
            == y.drop_last()[i].0 by {
            assert(x[i].0 == y[i].0);
        }
        lemma_same_index(x.drop_last(), y.drop_last(), key);
    }
}

proof fn lemma_redacted_all_same(
    a: JsonModel,
    b: JsonModel,
    paths: Seq<Seq<char>>,
    n: int,
    k: int,
)
    requires
        0 <= k < paths.len(),
        0 <= n <= paths.len(),
        redacted(a, pieces(paths[k], '.')) == redacted(b, pieces(paths[k], '.')),
    ensures
        n <= k ==> redacted(redacted_all(a, paths.take(n)), pieces(paths[k], '.')) == redacted(
            redacted_all(b, paths.take(n)),
            pieces(paths[k], '.'),
        ),
        n > k ==> redacted_all(a, paths.take(n)) == redacted_all(b, paths.take(n)),
    decreases n,
{
    if n > 0 {
        lemma_redacted_all_same(a, b, paths, n - 1, k);
        assert(paths.take(n).drop_last() =~= paths.take(n - 1));
        assert(paths.take(n).last() == paths[n - 1]);
        if n <= k {
            lemma_redacted_still(
                redacted_all(a, paths.take(n - 1)),
                redacted_all(b, paths.take(n - 1)),
                pieces(paths[k], '.'),
                pieces(paths[n - 1], '.'),
            );
        }
    } else {
        assert(paths.take(0) =~= seq![]);
    }
}

/// What stands under a volatile path does not affect an identity: requests
/// whose bodies agree but for what one of the paths reaches are the same
/// effect.
pub proof fn lemma_volatile_immaterial(
    paths: Seq<Seq<char>>,
    k: int,
    r: RequestModel,
    a: JsonModel,
    b: JsonModel,
)
    requires
        0 <= k < paths.len(),
        redacted(ordered(a), pieces(paths[k], '.')) == redacted(
            ordered(b),
            pieces(paths[k], '.'),
        ),
    ensures
        identity_of(paths, RequestModel { body: a, ..r }) == identity_of(
            paths,
            RequestModel { body: b, ..r },
        ),
{
    lemma_redacted_all_same(ordered(a), ordered(b), paths, paths.len() as int, k);
    assert(paths.take(paths.len() as int) =~= paths);
}

/// Blotting out leaves the keys of an object where they stand.
proof fn lemma_redacted_keys(fields: Seq<(Seq<char>, JsonModel)>, path: Seq<Seq<char>>)
    requires
        path.len() > 0,
    ensures
        redacted(JsonModel::Object(fields), path) is Object,
        keys_of(redacted(JsonModel::Object(fields), path)->Object_0) == keys_of(fields),
        redacted(JsonModel::Object(fields), path)->Object_0.len() == fields.len(),
        forall|key: Seq<char>| #[trigger]
            field_index(redacted(JsonModel::Object(fields), path)->Object_0, key) == field_index(
                fields,
                key,
            ),
{
    let out = redacted(JsonModel::Object(fields), path)->Object_0;
    assert(keys_of(out) =~= keys_of(fields));
    assert forall|key: Seq<char>| #[trigger] field_index(out, key) == field_index(fields, key) by {
        lemma_same_index(out, fields, key);
    }
}

/// Blotting out keeps a document in order.
proof fn lemma_redacted_ordered(m: JsonModel, path: Seq<Seq<char>>)
    requires
        ordered(m) == m,
    ensures
        ordered(redacted(m, path)) == redacted(m, path),
    decreases path.len(),
{
    if path.len() > 0 {
        let rest = path.skip(1);
        match m {
            JsonModel::Object(fields) => {
                let out = redacted(m, path)->Object_0;
                lemma_redacted_keys(fields, path);
                assert forall|i: int| 0 <= i < out.len() implies ordered((#[trigger] out[i]).1)
                    == out[i].1 by {
                    crate::json::lemma_ordered_fields(fields, i);
                    lemma_redacted_ordered(fields[i].1, rest);
                }
                crate::json::lemma_ordered_keys(fields, out);
            },
            JsonModel::Array(items) => {
                let out = redacted(m, path)->Array_0;
                assert forall|i: int| 0 <= i < out.len() implies ordered(#[trigger] out[i])
                    == out[i] by {
                    assert(ordered(m)->Array_0[i] == items[i]);
                    lemma_redacted_ordered(items[i], rest);
                }
                assert(ordered(redacted(m, path))->Array_0 =~= out);
            },
            _ => {},
        }
    }
}

/// Blotting out a path twice is blotting it out once.
proof fn lemma_redacted_twice(m: JsonModel, path: Seq<Seq<char>>)
    ensures
        redacted(redacted(m, path), path) == redacted(m, path),
    decreases path.len(),
{
    if path.len() > 0 {
        let rest = path.skip(1);
        match m {
            JsonModel::Object(fields) => {
                let once = redacted(m, path)->Object_0;
                let twice = redacted(redacted(m, path), path)->Object_0;
                lemma_redacted_keys(fields, path);
                assert forall|i: int| 0 <= i < once.len() implies #[trigger] twice[i]
                    == once[i] by {
                    lemma_redacted_twice(fields[i].1, rest);
                }
                assert(twice =~= once);
            },
            JsonModel::Array(items) => {
                let once = redacted(m, path)->Array_0;
                let twice = redacted(redacted(m, path), path)->Array_0;
                assert forall|i: int| 0 <= i < once.len() implies #[trigger] twice[i]
                    == once[i] by {
                    lemma_redacted_twice(items[i], rest);
                }
                assert(twice =~= once);
            },
            _ => {},
        }
    }
}

/// What is blotted out under a path stays so under another.
proof fn lemma_redacted_stays(m: JsonModel, p: Seq<Seq<char>>, q: Seq<Seq<char>>)
    requires
        redacted(m, p) == m,
    ensures
        redacted(redacted(m, q), p) == redacted(m, q),
    decreases p.len(),
{
    if p.len() > 0 && q.len() > 0 {
        let pr = p.skip(1);
        let qr = q.skip(1);
        match m {
            JsonModel::Object(fields) => {
                let before = redacted(m, p)->Object_0;
                let once = redacted(m, q)->Object_0;
                let twice = redacted(redacted(m, q), p)->Object_0;
                lemma_redacted_keys(fields, q);
                assert forall|i: int| 0 <= i < once.len() implies #[trigger] twice[i]
                    == once[i] by {
                    assert(before[i] == fields[i]);
                    if p[0] == "*"@ || i == field_index(fields, p[0]) {
                        lemma_redacted_stays(fields[i].1, pr, qr);
                    }
                }
                assert(twice =~= once);
            },
            JsonModel::Array(items) => {
                let before = redacted(m, p)->Array_0;
                let once = redacted(m, q)->Array_0;
                let twice = redacted(redacted(m, q), p)->Array_0;
                assert forall|i: int| 0 <= i < once.len() implies #[trigger] twice[i]
                    == once[i] by {
                    assert(before[i] == items[i]);
                    if p[0] == "*"@ || read_number(p[0], usize::MAX as nat) == Some(i as nat) {
                        lemma_redacted_stays(items[i], pr, qr);
                    }
                }
                assert(twice =~= once);
            },
            _ => {},
        }
    }
}

proof fn lemma_redacted_all_idle(m: JsonModel, paths: Seq<Seq<char>>, n: int, k: int)
    requires
        0 <= k < n <= paths.len(),
    ensures
        redacted(redacted_all(m, paths.take(n)), pieces(paths[k], '.')) == redacted_all(
            m,
            paths.take(n),
        ),
    decreases n,
{
    let before = redacted_all(m, paths.take(n - 1));
    let last = pieces(paths[n - 1], '.');
    assert(paths.take(n).drop_last() =~= paths.take(n - 1));
    assert(paths.take(n).last() == paths[n - 1]);
    if k == n - 1 {
        lemma_redacted_twice(before, last);
    } else {
        lemma_redacted_all_idle(m, paths, n - 1, k);
        lemma_redacted_stays(before, pieces(paths[k], '.'), last);
    }
}

proof fn lemma_redacted_all_still(m: JsonModel, paths: Seq<Seq<char>>, n: int)
    requires
        0 <= n <= paths.len(),
        forall|k: int| 0 <= k < n ==> redacted(m, pieces(#[trigger] paths[k], '.')) == m,
    ensures
        redacted_all(m, paths.take(n)) == m,
    decreases n,
{
    if n > 0 {
        assert(paths.take(n).drop_last() =~= paths.take(n - 1));
        assert(paths.take(n).last() == paths[n - 1]);
        lemma_redacted_all_still(m, paths, n - 1);
    } else {
        assert(paths.take(0) =~= seq![]);
    }
}

proof fn lemma_redacted_all_ordered(m: JsonModel, paths: Seq<Seq<char>>)
    requires
        ordered(m) == m,
    ensures
        ordered(redacted_all(m, paths)) == redacted_all(m, paths),
    decreases paths.len(),
{
    if paths.len() > 0 {
        lemma_redacted_all_ordered(m, paths.drop_last());
        lemma_redacted_ordered(redacted_all(m, paths.drop_last()), pieces(paths.last(), '.'));
    }
}

/// Canonicalising twice is canonicalising once.
pub proof fn lemma_canonical_twice(paths: Seq<Seq<char>>, m: JsonModel)
    ensures
        canonical(paths, canonical(paths, m)) == canonical(paths, m),
{
    let once = canonical(paths, m);
    let n = paths.len() as int;
    assert(paths.take(n) =~= paths);
    crate::json::lemma_ordered_idle(m);
    lemma_redacted_all_ordered(ordered(m), paths);
    assert forall|k: int| 0 <= k < n implies redacted(once, pieces(#[trigger] paths[k], '.'))
        == once by {
        lemma_redacted_all_idle(ordered(m), paths, n, k);
    }
    lemma_redacted_all_still(once, paths, n);
}

/// Where nothing is volatile, canonicalising puts keys in order and does nothing
/// else: a document whose keys are in order is its own canonical form.
pub proof fn lemma_exact_keeps(m: JsonModel)
    ensures
        canonical(seq![], m) == ordered(m),
        ordered(m) == m ==> canonical(seq![], m) == m,
{
}

/// A step into a document: to what a key holds, or to an item by its number.
pub enum Place {
    Key { key: Seq<char> },
    Item { at: nat },
}

/// What stands at a place in a document, reached step by step.
pub open spec fn value_at(m: JsonModel, place: Seq<Place>) -> Option<JsonModel>
    decreases place.len(),
{
    if place.len() == 0 {
        Some(m)
    } else {
        let inner = match (m, place[0]) {
            (JsonModel::Object(fields), Place::Key { key }) => crate::json::lookup(fields, key),
            (JsonModel::Array(items), Place::Item { at }) => if at < items.len() {
                Some(items[at as int])
            } else {
                None
            },
            _ => None,
        };
        match inner {
            Some(v) => value_at(v, place.skip(1)),
            None => None,
        }
    }
}

/// Whether a piece of a path names a step.
pub open spec fn names(piece: Seq<char>, step: Place) -> bool {
    piece == "*"@ || match step {
        Place::Key { key } => piece == key,
        Place::Item { at } => read_number(piece, usize::MAX as nat) == Some(at),
    }
}

/// Whether a path reaches a place: piece by piece it names the steps to it.
pub open spec fn reaches(path: Seq<Seq<char>>, place: Seq<Place>) -> bool {
    path.len() == place.len() && forall|i: int|
        0 <= i < path.len() ==> names(#[trigger] path[i], place[i])
}

/// Whether a path reaches a place, or something that the place is inside of.
pub open spec fn covers(path: Seq<Seq<char>>, place: Seq<Place>) -> bool {
    path.len() <= place.len() && reaches(path, place.take(path.len() as int))
}

proof fn lemma_reaches_inside(path: Seq<Seq<char>>, place: Seq<Place>)
    requires
        path.len() > 0,
        place.len() > 0,
    ensures
        reaches(path, place) <==> names(path[0], place[0]) && reaches(path.skip(1), place.skip(1)),
        covers(path, place) <==> names(path[0], place[0]) && covers(path.skip(1), place.skip(1)),
{
    lemma_reaches_step(path, place);
    if path.len() <= place.len() {
        let head = place.take(path.len() as int);
        lemma_reaches_step(path, head);
        assert(head.skip(1) =~= place.skip(1).take(path.len() - 1));
    }
}

proof fn lemma_reaches_step(path: Seq<Seq<char>>, place: Seq<Place>)
    requires
        path.len() > 0,
        place.len() > 0,
    ensures
        reaches(path, place) <==> names(path[0], place[0]) && reaches(path.skip(1), place.skip(1)),
{
    let (pr, qr) = (path.skip(1), place.skip(1));
    if reaches(path, place) {
        assert forall|i: int| 0 <= i < pr.len() implies names(#[trigger] pr[i], qr[i]) by {
            assert(names(path[i + 1], place[i + 1]));
        }
    }
    if names(path[0], place[0]) && reaches(pr, qr) {
        assert forall|i: int| 0 <= i < path.len() implies names(#[trigger] path[i], place[i]) by {
            if i > 0 {
                assert(names(pr[i - 1], qr[i - 1]));
            }
        }
    }
}

/// What one path does to what stands at a place: what it reaches becomes the
/// marker, nothing is left inside of that, and elsewhere a value is blotted out
/// only as far as the rest of the path goes.
proof fn lemma_redacted_at(m: JsonModel, path: Seq<Seq<char>>, place: Seq<Place>)
    ensures
        reaches(path, place) && value_at(m, place) is Some ==> value_at(redacted(m, path), place)
            == Some(JsonModel::Text(marker())),
        !covers(path, place) ==> (value_at(m, place) is Some <==> value_at(
            redacted(m, path),
            place,
        ) is Some),
        !covers(path, place) && value_at(m, place) is Some ==> same_shape(
            value_at(m, place)->0,
            value_at(redacted(m, path), place)->0,
        ),
    decreases path.len(),
{
    if path.len() == 0 {
        assert(place.take(0) =~= seq![]);
        assert(covers(path, place));
    } else if place.len() == 0 {
        match m {
            JsonModel::Object(fields) => {
                lemma_redacted_keys(fields, path);
            },
            _ => {},
        }
    } else {
        lemma_reaches_inside(path, place);
        let rest = path.skip(1);
        let inner = place.skip(1);
        match (m, place[0]) {
            (JsonModel::Object(fields), Place::Key { key }) => {
                lemma_redacted_keys(fields, path);
                crate::json::lemma_field_index(fields, key);
                crate::json::lemma_field_index(fields, path[0]);
                let at = field_index(fields, key);
                if at >= 0 {
                    lemma_redacted_at(fields[at].1, rest, inner);
                }
            },
            (JsonModel::Array(items), Place::Item { at }) => {
                if at < items.len() {
                    lemma_redacted_at(items[at as int], rest, inner);
                }
            },
            _ => {},
        }
    }
}

/// Whether two values agree in what blotting out inside of them leaves alone:
/// a plain value is the same, an object has the same keys, an array is as long.
pub open spec fn same_shape(a: JsonModel, b: JsonModel) -> bool {
    match (a, b) {
        (JsonModel::Object(x), JsonModel::Object(y)) => keys_of(x) == keys_of(y),
        (JsonModel::Array(x), JsonModel::Array(y)) => x.len() == y.len(),
        _ => a == b,
    }
}

proof fn lemma_redacted_all_at(m: JsonModel, paths: Seq<Seq<char>>, place: Seq<Place>)
    ensures
        (forall|k: int|
            0 <= k < paths.len() ==> !covers(#[trigger] pieces(paths[k], '.'), place)) ==> (
        value_at(m, place) is Some <==> value_at(redacted_all(m, paths), place) is Some),
        (forall|k: int|
            0 <= k < paths.len() ==> !covers(#[trigger] pieces(paths[k], '.'), place))
            && value_at(m, place) is Some ==> same_shape(
            value_at(m, place)->0,
            value_at(redacted_all(m, paths), place)->0,
        ),
    decreases paths.len(),
{
    if paths.len() > 0 {
        let most = paths.drop_last();
        lemma_redacted_all_at(m, most, place);
        lemma_redacted_at(redacted_all(m, most), pieces(paths.last(), '.'), place);
        if forall|k: int|
            0 <= k < paths.len() ==> !covers(#[trigger] pieces(paths[k], '.'), place) {
            assert(!covers(pieces(paths[paths.len() - 1], '.'), place));
            assert forall|k: int| 0 <= k < most.len() implies !covers(
                #[trigger] pieces(most[k], '.'),
                place,
            ) by {
                assert(most[k] == paths[k]);
                assert(!covers(pieces(paths[k], '.'), place));
            }
        }
    }
}

/// What no volatile path covers is as it was: a plain value is the same, an
/// object has the same keys, an array is as long, and nothing appears or goes.
pub proof fn lemma_rest_kept(paths: Seq<Seq<char>>, m: JsonModel, place: Seq<Place>)
    requires
        forall|k: int| 0 <= k < paths.len() ==> !covers(#[trigger] pieces(paths[k], '.'), place),
    ensures
        value_at(ordered(m), place) is Some <==> value_at(canonical(paths, m), place) is Some,
        value_at(ordered(m), place) is Some ==> same_shape(
            value_at(ordered(m), place)->0,
            value_at(canonical(paths, m), place)->0,
        ),
{
    lemma_redacted_all_at(ordered(m), paths, place);
}

proof fn lemma_marker_stays(m: JsonModel, path: Seq<Seq<char>>, place: Seq<Place>)
    requires
        value_at(m, place) == Some(JsonModel::Text(marker())),
        !covers(path, place) || reaches(path, place),
    ensures
        value_at(redacted(m, path), place) == Some(JsonModel::Text(marker())),
{
    lemma_redacted_at(m, path, place);
}

/// What a volatile path reaches becomes the marker, unless another one reaches
/// something that it is inside of, which then is the marker as a whole.
pub proof fn lemma_volatile_marked(
    paths: Seq<Seq<char>>,
    m: JsonModel,
    place: Seq<Place>,
    k: int,
)
    requires
        0 <= k < paths.len(),
        reaches(pieces(paths[k], '.'), place),
        value_at(ordered(m), place) is Some,
        forall|j: int|
            0 <= j < paths.len() ==> !covers(#[trigger] pieces(paths[j], '.'), place) || reaches(
                pieces(paths[j], '.'),
                place,
            ),
    ensures
        value_at(canonical(paths, m), place) == Some(JsonModel::Text(marker())),
{
    lemma_marked_upto(paths, ordered(m), place, k, paths.len() as int);
    assert(paths.take(paths.len() as int) =~= paths);
}

proof fn lemma_marked_upto(
    paths: Seq<Seq<char>>,
    m: JsonModel,
    place: Seq<Place>,
    k: int,
    n: int,
)
    requires
        0 <= k < paths.len(),
        0 <= n <= paths.len(),
        reaches(pieces(paths[k], '.'), place),
        value_at(m, place) is Some,
        forall|j: int|
            0 <= j < paths.len() ==> !covers(#[trigger] pieces(paths[j], '.'), place) || reaches(
                pieces(paths[j], '.'),
                place,
            ),
    ensures
        value_at(redacted_all(m, paths.take(n)), place) is Some,
        n > k ==> value_at(redacted_all(m, paths.take(n)), place) == Some(
            JsonModel::Text(marker()),
        ),
    decreases n,
{
    if n > 0 {
        let before = redacted_all(m, paths.take(n - 1));
        let last = pieces(paths[n - 1], '.');
        lemma_marked_upto(paths, m, place, k, n - 1);
        assert(paths.take(n).drop_last() =~= paths.take(n - 1));
        assert(paths.take(n).last() == paths[n - 1]);
        assert(!covers(last, place) || reaches(last, place));
        lemma_redacted_at(before, last, place);
        if n - 1 > k {
            lemma_marker_stays(before, last, place);
        }
    } else {
        assert(paths.take(0) =~= seq![]);
    }
}

/// A path that reaches nothing in a document changes nothing in it.
pub proof fn lemma_missing_path_idle(m: JsonModel, path: Seq<Seq<char>>)
    requires
        tidy(m),
        forall|place: Seq<Place>| #[trigger] reaches(path, place) ==> value_at(m, place) is None,
    ensures
        redacted(m, path) == m,
    decreases path.len(),
{
    if path.len() == 0 {
        assert(reaches(path, seq![]));
        assert(value_at(m, seq![]) is None);
    } else {
        let rest = path.skip(1);
        match m {
            JsonModel::Object(fields) => {
                let out = redacted(m, path)->Object_0;
                assert forall|i: int| 0 <= i < out.len() implies #[trigger] out[i]
                    == fields[i] by {
                    if path[0] == "*"@ || i == field_index(fields, path[0]) {
                        crate::json::lemma_field_index(fields, path[0]);
                        crate::json::lemma_field_index(fields, fields[i].0);
                        assert(keys_of(fields)[i] == keys_of(fields)[field_index(
                            fields,
                            fields[i].0,
                        )]);
                        let step = Place::Key { key: fields[i].0 };
                        assert(seq![step].skip(1) =~= seq![]);
                        reveal_with_fuel(value_at, 2);
                        lemma_inside_missed(m, path, step, fields[i].1);
                        lemma_missing_path_idle(fields[i].1, rest);
                    }
                }
                assert(out =~= fields);
            },
            JsonModel::Array(items) => {
                let out = redacted(m, path)->Array_0;
                assert forall|i: int| 0 <= i < out.len() implies #[trigger] out[i]
                    == items[i] by {
                    if path[0] == "*"@ || read_number(path[0], usize::MAX as nat) == Some(
                        i as nat,
                    ) {
                        let step = Place::Item { at: i as nat };
                        assert(seq![step].skip(1) =~= seq![]);
                        reveal_with_fuel(value_at, 2);
                        lemma_inside_missed(m, path, step, items[i]);
                        lemma_missing_path_idle(items[i], rest);
                    }
                }
                assert(out =~= items);
            },
            _ => {},
        }
    }
}

/// What is missed in a document is missed inside of what a step leads to.
proof fn lemma_inside_missed(m: JsonModel, path: Seq<Seq<char>>, step: Place, inner: JsonModel)
    requires
        path.len() > 0,
        names(path[0], step),
        value_at(m, seq![step]) == Some(inner),
        forall|place: Seq<Place>| #[trigger] reaches(path, place) ==> value_at(m, place) is None,
    ensures
        forall|place: Seq<Place>| #[trigger]
            reaches(path.skip(1), place) ==> value_at(inner, place) is None,
{
    assert forall|place: Seq<Place>| #[trigger] reaches(path.skip(1), place) implies value_at(
        inner,
        place,
    ) is None by {
        let whole = seq![step] + place;
        assert(whole.skip(1) =~= place);
        lemma_reaches_step(path, whole);
        assert(reaches(path, whole));
        assert(seq![step].skip(1) =~= seq![]);
        reveal_with_fuel(value_at, 2);
    }
}

/// Where no volatile path reaches anything, the canonical form is the document
/// with its keys in order.
pub proof fn lemma_missing_paths_idle(paths: Seq<Seq<char>>, m: JsonModel)
    requires
        forall|k: int, place: Seq<Place>|
            0 <= k < paths.len() && #[trigger] reaches(pieces(paths[k], '.'), place) ==> value_at(
                ordered(m),
                place,
            ) is None,
    ensures
        canonical(paths, m) == ordered(m),
{
    crate::json::lemma_ordered_tidy(m);
    assert forall|k: int| 0 <= k < paths.len() implies redacted(
        ordered(m),
        pieces(#[trigger] paths[k], '.'),
    ) == ordered(m) by {
        lemma_missing_path_idle(ordered(m), pieces(paths[k], '.'));
    }
    lemma_redacted_all_still(ordered(m), paths, paths.len() as int);
    assert(paths.take(paths.len() as int) =~= paths);
}

/// The text that an identity is taken from.
proof fn lemma_envelope_text(
    paths: Seq<Seq<char>>,
    kind: Seq<char>,
    name: Seq<char>,
    body: JsonModel,
)
    ensures
        printed(envelope(paths, kind, name, body)) == three_fields(
            "body"@,
            printed(canonical(paths, body)),
            "kind"@,
            string_text(kind),
            "name"@,
            string_text(name),
        ),
        plain(settled(envelope(paths, kind, name, body))) ==> plain(
            settled(canonical(paths, body)),
        ),
{
    let m = envelope(paths, kind, name, body);
    let out = settled(m);
    let fields = out->Object_0;
    assert(fields.len() == 3);
    assert(fields[0] == ("body"@, settled(canonical(paths, body))));
    assert(fields[1] == ("kind"@, settled(JsonModel::Text(kind))));
    assert(fields[2] == ("name"@, settled(JsonModel::Text(name))));
    lemma_three_fields(out);
    reveal(crate::json::json_text);
    assert(json_text(JsonModel::Text(kind)) == string_text(kind));
    assert(json_text(JsonModel::Text(name)) == string_text(name));
}

/// Two effects have the same identity exactly where they have the same kind,
/// the same target, and bodies with the same canonical bytes, where the hash
/// has no collision on the two: key order and volatile fields do not matter,
/// and all else does.
pub proof fn lemma_identity_tells_apart(
    paths: Seq<Seq<char>>,
    kind: Seq<char>,
    name: Seq<char>,
    body: JsonModel,
    other_kind: Seq<char>,
    other_name: Seq<char>,
    other_body: JsonModel,
)
    requires
        plain(settled(envelope(paths, kind, name, body))),
        plain(settled(envelope(paths, other_kind, other_name, other_body))),
        digest_of(envelope(paths, kind, name, body)) == digest_of(
            envelope(paths, other_kind, other_name, other_body),
        ) ==> encode_utf8(printed(envelope(paths, kind, name, body))) == encode_utf8(
            printed(envelope(paths, other_kind, other_name, other_body)),
        ),
    ensures
        digest_of(envelope(paths, kind, name, body)) == digest_of(
            envelope(paths, other_kind, other_name, other_body),
        ) <==> kind == other_kind && name == other_name && encode_utf8(
            printed(canonical(paths, body)),
        ) == encode_utf8(printed(canonical(paths, other_body))),
{
    broadcast use vstd::utf8::encode_utf8_decode_utf8;

    let one = printed(envelope(paths, kind, name, body));
    let other = printed(envelope(paths, other_kind, other_name, other_body));
    let a = printed(canonical(paths, body));
    let b = printed(canonical(paths, other_body));
    lemma_envelope_text(paths, kind, name, body);
    lemma_envelope_text(paths, other_kind, other_name, other_body);
    if encode_utf8(a) == encode_utf8(b) {
        assert(vstd::utf8::decode_utf8(encode_utf8(a)) == a);
        assert(vstd::utf8::decode_utf8(encode_utf8(b)) == b);
        assert(a == b);
    }
    if encode_utf8(one) == encode_utf8(other) {
        assert(vstd::utf8::decode_utf8(encode_utf8(one)) == one);
        assert(vstd::utf8::decode_utf8(encode_utf8(other)) == other);
        lemma_text_whole(settled(canonical(paths, body)), 0);
        lemma_text_whole(settled(canonical(paths, other_body)), 0);
        reveal(crate::json::json_text);
        lemma_text_whole(JsonModel::Text(kind), 0);
        lemma_text_whole(JsonModel::Text(other_kind), 0);
        lemma_three_fields_apart(
            "body"@,
            a,
            "kind"@,
            string_text(kind),
            "name"@,
            string_text(name),
            b,
            string_text(other_kind),
            string_text(other_name),
        );
        lemma_strings_apart(kind, other_kind);
        lemma_strings_apart(name, other_name);
    }
}

/// The kind and the target of an effect are part of what its identity is
/// taken from, and so is its body in canonical form.
pub proof fn lemma_envelope_tells_apart(
    paths: Seq<Seq<char>>,
    kind: EffectKind,
    name: Seq<char>,
    body: JsonModel,
    other_kind: EffectKind,
    other_name: Seq<char>,
    other_body: JsonModel,
)
    requires
        envelope(paths, kind_name(kind), name, body) == envelope(
            paths,
            kind_name(other_kind),
            other_name,
            other_body,
        ),
    ensures
        kind == other_kind,
        name == other_name,
        canonical(paths, body) == canonical(paths, other_body),
{
    let one = envelope(paths, kind_name(kind), name, body)->Object_0;
    let other = envelope(paths, kind_name(other_kind), other_name, other_body)->Object_0;
    assert(one[0] == other[0]);
    assert(one[1] == other[1]);
    assert(one[2] == other[2]);
    crate::record::lemma_kind_named(kind);
    crate::record::lemma_kind_named(other_kind);
}

} // verus!
