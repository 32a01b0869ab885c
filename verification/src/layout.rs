//! What the text of a document shows of it: where a part ends can be told from
//! the text alone, so documents with the same text have parts with the same
//! texts.

use crate::json::{
    escaped, escaped_char, fields_text, hex_digit, items_text, json_text, number_text, numeric,
    plain, string_text, JsonModel, NumberModel,
};
use crate::text::decimal;
use vstd::prelude::*;

verus! {

/// A place in a text: how deep in brackets, whether in a string, and whether
/// behind a backslash in it.
pub struct Mark {
    pub depth: int,
    pub quoted: bool,
    pub slash: bool,
}

/// A place outside of strings.
pub open spec fn outside(depth: int) -> Mark {
    Mark { depth, quoted: false, slash: false }
}

/// A place in a string.
pub open spec fn inside(depth: int) -> Mark {
    Mark { depth, quoted: true, slash: false }
}

/// The place behind a character.
pub open spec fn behind(at: Mark, c: char) -> Mark {
    if at.quoted {
        if at.slash {
            inside(at.depth)
        } else if c == '\\' {
            Mark { slash: true, ..at }
        } else if c == '"' {
            outside(at.depth)
        } else {
            at
        }
    } else if c == '"' {
        inside(at.depth)
    } else if c == '[' || c == '{' {
        outside(at.depth + 1)
    } else if c == ']' || c == '}' {
        outside(at.depth - 1)
    } else {
        at
    }
}

/// The place behind a text.
pub open spec fn scanned(s: Seq<char>, at: Mark) -> Mark
    decreases s.len(),
{
    if s.len() == 0 {
        at
    } else {
        behind(scanned(s.drop_last(), at), s.last())
    }
}

/// Whether every comma of a text is in a string, or deeper than this.
pub open spec fn commas_below(s: Seq<char>, at: Mark, depth: int) -> bool {
    forall|i: int|
        0 <= i < s.len() && #[trigger] s[i] == ',' ==> scanned(s.take(i), at).quoted || scanned(
            s.take(i),
            at,
        ).depth > depth
}

/// Whether a text is a whole: it ends at the depth it begins at, and every
/// comma of it is in a string or deeper.
pub open spec fn whole_at(s: Seq<char>, depth: int) -> bool {
    scanned(s, outside(depth)) == outside(depth) && commas_below(s, outside(depth), depth)
}

proof fn lemma_scanned_on(a: Seq<char>, b: Seq<char>, at: Mark)
    ensures
        scanned(a + b, at) == scanned(b, scanned(a, at)),
    decreases b.len(),
{
    if b.len() == 0 {
        assert(a + b =~= a);
    } else {
        assert((a + b).drop_last() =~= a + b.drop_last());
        lemma_scanned_on(a, b.drop_last(), at);
    }
}

proof fn lemma_commas_on(a: Seq<char>, b: Seq<char>, at: Mark, depth: int)
    requires
        commas_below(a, at, depth),
        commas_below(b, scanned(a, at), depth),
    ensures
        commas_below(a + b, at, depth),
{
    let all = a + b;
    assert forall|i: int| 0 <= i < all.len() && #[trigger] all[i] == ',' implies scanned(
        all.take(i),
        at,
    ).quoted || scanned(all.take(i), at).depth > depth by {
        if i < a.len() {
            assert(a[i] == ',');
            assert(all.take(i) =~= a.take(i));
        } else {
            assert(b[i - a.len()] == ',');
            assert(all.take(i) =~= a + b.take(i - a.len()));
            lemma_scanned_on(a, b.take(i - a.len()), at);
        }
    }
}

proof fn lemma_one(c: char, at: Mark)
    ensures
        scanned(seq![c], at) == behind(at, c),
        c != ',' ==> forall|depth: int| #[trigger] commas_below(seq![c], at, depth),
        c == ',' && !at.quoted ==> commas_below(seq![c], at, at.depth - 1),
        at.quoted ==> forall|depth: int| #[trigger] commas_below(seq![c], at, depth),
{
    let s = seq![c];
    assert(s.drop_last() =~= seq![]);
    reveal_with_fuel(scanned, 2);
    assert(s.take(0) =~= seq![]);
}

/// A text without quotes, brackets and commas is a whole.
proof fn lemma_bare(s: Seq<char>, depth: int)
    requires
        forall|i: int|
            0 <= i < s.len() ==> {
                let c = #[trigger] s[i];
                c != '"' && c != '[' && c != ']' && c != '{' && c != '}' && c != ','
            },
    ensures
        whole_at(s, depth),
    decreases s.len(),
{
    if s.len() > 0 {
        let most = s.drop_last();
        assert forall|i: int| 0 <= i < most.len() implies {
            let c = #[trigger] most[i];
            c != '"' && c != '[' && c != ']' && c != '{' && c != '}' && c != ','
        } by {
            assert(most[i] == s[i]);
        }
        lemma_bare(most, depth);
        assert(s.last() == s[s.len() - 1]);
    }
}

/// Characters that are no quotes and no backslashes stay in a string.
proof fn lemma_stays_inside(s: Seq<char>, depth: int)
    requires
        forall|i: int| 0 <= i < s.len() ==> #[trigger] s[i] != '"' && s[i] != '\\',
    ensures
        scanned(s, inside(depth)) == inside(depth),
    decreases s.len(),
{
    if s.len() > 0 {
        let most = s.drop_last();
        assert forall|i: int| 0 <= i < most.len() implies #[trigger] most[i] != '"' && most[i]
            != '\\' by {
            assert(most[i] == s[i]);
        }
        lemma_stays_inside(most, depth);
        assert(s.last() == s[s.len() - 1]);
    }
}

proof fn lemma_escaped_char_inside(c: char, depth: int)
    ensures
        scanned(escaped_char(c), inside(depth)) == inside(depth),
        commas_below(escaped_char(c), inside(depth), depth),
{
    let s = escaped_char(c);
    let at = inside(depth);
    if s.len() == 1 {
        assert(s =~= seq![c]);
        lemma_one(c, at);
    } else {
        let rest = s.skip(2);
        assert(s =~= seq![s[0]] + seq![s[1]] + rest);
        lemma_one(s[0], at);
        lemma_scanned_on(seq![s[0]], seq![s[1]], at);
        lemma_one(s[1], behind(at, s[0]));
        lemma_scanned_on(seq![s[0]] + seq![s[1]], rest, at);
        assert(c as nat / 16 < 16 && c as nat % 16 < 16 || s.len() == 2);
        lemma_stays_inside(rest, depth);
    }
    assert forall|i: int| 0 <= i < s.len() && #[trigger] s[i] == ',' implies scanned(
        s.take(i),
        at,
    ).quoted by {
        assert(c == ',' && i == 0);
        assert(s.take(0) =~= seq![]);
    }
}

proof fn lemma_escaped_inside(s: Seq<char>, depth: int)
    ensures
        scanned(escaped(s), inside(depth)) == inside(depth),
        commas_below(escaped(s), inside(depth), depth),
    decreases s.len(),
{
    if s.len() > 0 {
        lemma_escaped_inside(s.drop_last(), depth);
        lemma_escaped_char_inside(s.last(), depth);
        lemma_scanned_on(escaped(s.drop_last()), escaped_char(s.last()), inside(depth));
        lemma_commas_on(escaped(s.drop_last()), escaped_char(s.last()), inside(depth), depth);
    }
}

/// A string is a whole.
proof fn lemma_string_whole(s: Seq<char>, depth: int)
    ensures
        whole_at(string_text(s), depth),
{
    let at = outside(depth);
    let open = seq!['"'];
    lemma_one('"', at);
    lemma_escaped_inside(s, depth);
    lemma_scanned_on(open, escaped(s), at);
    lemma_commas_on(open, escaped(s), at, depth);
    lemma_one('"', inside(depth));
    lemma_scanned_on(open + escaped(s), seq!['"'], at);
    lemma_commas_on(open + escaped(s), seq!['"'], at, depth);
}

proof fn lemma_decimal_numeric(n: nat)
    ensures
        numeric(decimal(n)),
    decreases n,
{
    if n >= 10 {
        lemma_decimal_numeric(n / 10);
    }
}

proof fn lemma_number_whole(n: NumberModel, depth: int)
    requires
        plain(JsonModel::Number(n)),
    ensures
        whole_at(number_text(n), depth),
{
    match n {
        NumberModel::Unsigned(v) => {
            lemma_decimal_numeric(v as nat);
        },
        NumberModel::Signed(v) => {
            if v < 0 {
                lemma_decimal_numeric((-v) as nat);
            } else {
                lemma_decimal_numeric(v as nat);
            }
        },
        NumberModel::Float(_) => {},
    }
    let t = number_text(n);
    assert(numeric(t));
    assert forall|i: int| 0 <= i < t.len() implies {
        let c = #[trigger] t[i];
        c != '"' && c != '[' && c != ']' && c != '{' && c != '}' && c != ','
    } by {}
    lemma_bare(t, depth);
}

/// Whether a text can stand between brackets: it ends at the depth it begins
/// at, one below the brackets, and every comma of it is in a string or below
/// them.
spec fn enclosed(s: Seq<char>, depth: int) -> bool {
    scanned(s, outside(depth + 1)) == outside(depth + 1) && commas_below(
        s,
        outside(depth + 1),
        depth,
    )
}

proof fn lemma_enclosed_on(a: Seq<char>, b: Seq<char>, depth: int)
    requires
        enclosed(a, depth),
        enclosed(b, depth),
    ensures
        enclosed(a + b, depth),
{
    lemma_scanned_on(a, b, outside(depth + 1));
    lemma_commas_on(a, b, outside(depth + 1), depth);
}

proof fn lemma_whole_enclosed(s: Seq<char>, depth: int)
    requires
        whole_at(s, depth + 1),
    ensures
        enclosed(s, depth),
{
}

proof fn lemma_sign_enclosed(c: char, depth: int)
    requires
        c == ',' || c == ':',
    ensures
        enclosed(seq![c], depth),
{
    lemma_one(c, outside(depth + 1));
}

proof fn lemma_brackets(open: char, s: Seq<char>, close: char, depth: int)
    requires
        (open == '[' && close == ']') || (open == '{' && close == '}'),
        enclosed(s, depth),
    ensures
        whole_at(seq![open] + s + seq![close], depth),
{
    let at = outside(depth);
    lemma_one(open, at);
    lemma_scanned_on(seq![open], s, at);
    lemma_commas_on(seq![open], s, at, depth);
    lemma_one(close, outside(depth + 1));
    lemma_scanned_on(seq![open] + s, seq![close], at);
    lemma_commas_on(seq![open] + s, seq![close], at, depth);
}

/// The text of a document is a whole.
pub proof fn lemma_text_whole(m: JsonModel, depth: int)
    requires
        plain(m),
    ensures
        whole_at(json_text(m), depth),
    decreases m, 1nat, 0nat,
{
    reveal(json_text);
    reveal(items_text);
    reveal(fields_text);
    match m {
        JsonModel::Null => {
            reveal_strlit("null");
            lemma_bare("null"@, depth);
        },
        JsonModel::Bool(_) => {
            reveal_strlit("true");
            reveal_strlit("false");
            lemma_bare("true"@, depth);
            lemma_bare("false"@, depth);
        },
        JsonModel::Number(n) => {
            lemma_number_whole(n, depth);
        },
        JsonModel::Text(t) => {
            lemma_string_whole(t, depth);
        },
        JsonModel::Array(items) => {
            lemma_items_enclosed(m, items.len(), depth);
            lemma_brackets('[', items_text(m, items.len()), ']', depth);
        },
        JsonModel::Object(fields) => {
            lemma_fields_enclosed(m, fields.len(), depth);
            lemma_brackets('{', fields_text(m, fields.len()), '}', depth);
        },
    }
}

proof fn lemma_items_enclosed(m: JsonModel, k: nat, depth: int)
    requires
        plain(m),
        m is Array,
        k <= m->Array_0.len(),
    ensures
        enclosed(items_text(m, k), depth),
    decreases m, 0nat, k,
{
    reveal(json_text);
    reveal(items_text);
    reveal(fields_text);
    if k > 0 {
        let item = m->Array_0[k - 1];
        lemma_text_whole(item, depth + 1);
        lemma_whole_enclosed(json_text(item), depth);
        if k > 1 {
            lemma_items_enclosed(m, (k - 1) as nat, depth);
            lemma_sign_enclosed(',', depth);
            lemma_enclosed_on(items_text(m, (k - 1) as nat), seq![','], depth);
            lemma_enclosed_on(
                items_text(m, (k - 1) as nat) + seq![','],
                json_text(item),
                depth,
            );
        }
    }
}

proof fn lemma_fields_enclosed(m: JsonModel, k: nat, depth: int)
    requires
        plain(m),
        m is Object,
        k <= m->Object_0.len(),
    ensures
        enclosed(fields_text(m, k), depth),
    decreases m, 0nat, k,
{
    reveal(json_text);
    reveal(items_text);
    reveal(fields_text);
    if k > 0 {
        let field = m->Object_0[k - 1];
        let key = string_text(field.0);
        lemma_text_whole(field.1, depth + 1);
        lemma_whole_enclosed(json_text(field.1), depth);
        lemma_string_whole(field.0, depth + 1);
        lemma_whole_enclosed(key, depth);
        lemma_sign_enclosed(':', depth);
        lemma_sign_enclosed(',', depth);
        lemma_enclosed_on(key, seq![':'], depth);
        lemma_enclosed_on(key + seq![':'], json_text(field.1), depth);
        if k > 1 {
            lemma_fields_enclosed(m, (k - 1) as nat, depth);
            lemma_enclosed_on(fields_text(m, (k - 1) as nat), seq![','], depth);
            lemma_enclosed_on(
                fields_text(m, (k - 1) as nat) + seq![','],
                key + seq![':'] + json_text(field.1),
                depth,
            );
        }
    }
}

/// A whole that a comma follows ends where it ends: texts that begin with
/// wholes and go on with commas are the same only where the wholes are.
pub proof fn lemma_whole_ends(a: Seq<char>, x: Seq<char>, b: Seq<char>, y: Seq<char>)
    requires
        whole_at(a, 0),
        whole_at(b, 0),
        x.len() > 0 && x[0] == ',',
        y.len() > 0 && y[0] == ',',
        a + x == b + y,
    ensures
        a == b,
        x == y,
{
    let all = a + x;
    if a.len() < b.len() {
        assert(all[a.len() as int] == ',' && b[a.len() as int] == ',');
        assert(b.take(a.len() as int) =~= a) by {
            assert(all.take(a.len() as int) =~= a);
        }
        assert(false);
    } else if b.len() < a.len() {
        assert(all[b.len() as int] == ',' && a[b.len() as int] == ',') by {
            assert((b + y)[b.len() as int] == ',');
        }
        assert(a.take(b.len() as int) =~= b) by {
            assert((b + y).take(b.len() as int) =~= b);
        }
        assert(false);
    } else {
        assert(a =~= b) by {
            assert forall|i: int| 0 <= i < a.len() implies a[i] == b[i] by {
                assert((a + x)[i] == a[i]);
                assert((b + y)[i] == b[i]);
            }
        }
        assert(x =~= all.skip(a.len() as int));
        assert(y =~= (b + y).skip(b.len() as int));
    }
}

proof fn lemma_escaped_first(s: Seq<char>)
    requires
        s.len() > 0,
    ensures
        escaped(s) == escaped_char(s[0]) + escaped(s.skip(1)),
    decreases s.len(),
{
    let most = s.drop_last();
    if most.len() == 0 {
        assert(s.skip(1) =~= seq![]);
        assert(most =~= seq![]);
        reveal_with_fuel(escaped, 2);
        assert(escaped(s) =~= escaped_char(s[0]) + escaped(s.skip(1)));
    } else {
        lemma_escaped_first(most);
        assert(most.skip(1) =~= s.skip(1).drop_last());
        assert(escaped(s) =~= escaped_char(s[0]) + escaped(s.skip(1)));
    }
}

proof fn lemma_escapes_apart(a: char, x: Seq<char>, b: char, y: Seq<char>)
    requires
        escaped_char(a) + x == escaped_char(b) + y,
    ensures
        a == b,
        x == y,
{
    let (p, q) = (escaped_char(a), escaped_char(b));
    let all = p + x;
    assert(all[0] == p[0] && (q + y)[0] == q[0]);
    if p.len() >= 2 && q.len() >= 2 {
        assert(all[1] == p[1] && (q + y)[1] == q[1]);
        if p.len() == 6 && q.len() == 6 {
            assert(all[4] == p[4] && (q + y)[4] == q[4]);
            assert(all[5] == p[5] && (q + y)[5] == q[5]);
            assert(a as nat / 16 == b as nat / 16);
            assert(a as nat % 16 == b as nat % 16);
            assert(a as nat == b as nat);
        }
    }
    assert(a == b);
    assert(x =~= all.skip(p.len() as int));
    assert(y =~= (q + y).skip(q.len() as int));
}

/// Different texts stand differently in strings.
pub proof fn lemma_strings_apart(a: Seq<char>, b: Seq<char>)
    requires
        string_text(a) == string_text(b),
    ensures
        a == b,
{
    let (x, y) = (string_text(a), string_text(b));
    assert(escaped(a) =~= x.subrange(1, x.len() - 1));
    assert(escaped(b) =~= y.subrange(1, y.len() - 1));
    lemma_escaped_apart(a, b);
}

proof fn lemma_escaped_apart(a: Seq<char>, b: Seq<char>)
    requires
        escaped(a) == escaped(b),
    ensures
        a == b,
    decreases a.len(),
{
    if a.len() == 0 {
        if b.len() > 0 {
            lemma_escaped_first(b);
            assert(escaped(b).len() > 0);
        }
        assert(a =~= b);
    } else if b.len() == 0 {
        lemma_escaped_first(a);
        assert(escaped(a).len() > 0);
    } else {
        lemma_escaped_first(a);
        lemma_escaped_first(b);
        lemma_escapes_apart(a[0], escaped(a.skip(1)), b[0], escaped(b.skip(1)));
        lemma_escaped_apart(a.skip(1), b.skip(1));
        assert(a =~= seq![a[0]] + a.skip(1));
        assert(b =~= seq![b[0]] + b.skip(1));
    }
}

/// The text of an object of three fields.
pub open spec fn three_fields(
    first: Seq<char>,
    a: Seq<char>,
    second: Seq<char>,
    b: Seq<char>,
    third: Seq<char>,
    c: Seq<char>,
) -> Seq<char> {
    seq!['{'] + (string_text(first) + seq![':'] + a + seq![','] + (string_text(second) + seq![':']
        + b) + seq![','] + (string_text(third) + seq![':'] + c)) + seq!['}']
}

/// The text of an object of three fields is made of the texts of its fields.
pub proof fn lemma_three_fields(m: JsonModel)
    requires
        m is Object,
        m->Object_0.len() == 3,
    ensures
        json_text(m) == three_fields(
            m->Object_0[0].0,
            json_text(m->Object_0[0].1),
            m->Object_0[1].0,
            json_text(m->Object_0[1].1),
            m->Object_0[2].0,
            json_text(m->Object_0[2].1),
        ),
{
    let fields = m->Object_0;
    reveal(json_text);
    reveal(items_text);
    reveal_with_fuel(fields_text, 3);
    assert(fields_text(m, 1) == string_text(fields[0].0) + seq![':'] + json_text(fields[0].1));
    assert(fields_text(m, 2) == fields_text(m, 1) + seq![','] + (string_text(fields[1].0)
        + seq![':'] + json_text(fields[1].1)));
    assert(fields_text(m, 3) == fields_text(m, 2) + seq![','] + (string_text(fields[2].0)
        + seq![':'] + json_text(fields[2].1)));
}

/// Objects of three fields under the same keys have the same text only where
/// their fields have: the first two are wholes, and the third ends the object.
pub proof fn lemma_three_fields_apart(
    first: Seq<char>,
    a: Seq<char>,
    second: Seq<char>,
    b: Seq<char>,
    third: Seq<char>,
    c: Seq<char>,
    x: Seq<char>,
    y: Seq<char>,
    z: Seq<char>,
)
    requires
        whole_at(a, 0),
        whole_at(b, 0),
        whole_at(x, 0),
        whole_at(y, 0),
        three_fields(first, a, second, b, third, c) == three_fields(
            first,
            x,
            second,
            y,
            third,
            z,
        ),
    ensures
        a == x,
        b == y,
        c == z,
{
    let (head, middle, tail) = (
        before_value('{', first),
        before_value(',', second),
        before_value(',', third),
    );
    let (cs, ct) = (tail + (c + seq!['}']), tail + (z + seq!['}']));
    lemma_three_parts(first, a, second, b, third, c);
    lemma_three_parts(first, x, second, y, third, z);
    lemma_same_first(head, a, middle, b + cs, x, y + ct);
    lemma_same_first(middle, b, tail, c + seq!['}'], y, z + seq!['}']);
    lemma_same_rest(tail, c + seq!['}'], z + seq!['}']);
    assert(c =~= (c + seq!['}']).drop_last());
    assert(z =~= (z + seq!['}']).drop_last());
}

/// What stands before the value of a field: a mark, the key and a colon.
spec fn before_value(mark: char, key: Seq<char>) -> Seq<char> {
    seq![mark] + string_text(key) + seq![':']
}

proof fn lemma_three_parts(
    first: Seq<char>,
    a: Seq<char>,
    second: Seq<char>,
    b: Seq<char>,
    third: Seq<char>,
    c: Seq<char>,
)
    ensures
        three_fields(first, a, second, b, third, c) == before_value('{', first) + (a + (
        before_value(',', second) + (b + (before_value(',', third) + (c + seq!['}']))))),
{
    let (p, q, r) = (string_text(first), string_text(second), string_text(third));
    let end = c + seq!['}'];
    let (bs, cs) = (q + seq![':'] + b, r + seq![':'] + c);
    assert(cs + seq!['}'] =~= (r + seq![':']) + end);
    assert(seq![','] + (cs + seq!['}']) =~= before_value(',', third) + end);
    assert(seq![','] + (bs + (seq![','] + (cs + seq!['}']))) =~= before_value(',', second) + (b + (
    seq![','] + (cs + seq!['}']))));
    let whole = three_fields(first, a, second, b, third, c);
    assert(whole =~= (seq!['{'] + p + seq![':']) + (a + (seq![','] + (bs + (seq![','] + (cs + seq![
        '}',
    ]))))));
}

/// Texts that start alike, go on with a whole and then with the same comma hold
/// the same whole, and the same behind it.
proof fn lemma_same_first(
    head: Seq<char>,
    a: Seq<char>,
    next: Seq<char>,
    rest: Seq<char>,
    x: Seq<char>,
    other: Seq<char>,
)
    requires
        whole_at(a, 0),
        whole_at(x, 0),
        next.len() > 0,
        next[0] == ',',
        head + (a + (next + rest)) == head + (x + (next + other)),
    ensures
        a == x,
        next + rest == next + other,
        rest == other,
{
    lemma_same_rest(head, a + (next + rest), x + (next + other));
    assert((next + rest)[0] == ',' && (next + other)[0] == ',');
    lemma_whole_ends(a, next + rest, x, next + other);
    lemma_same_rest(next, rest, other);
}

proof fn lemma_same_rest(head: Seq<char>, a: Seq<char>, b: Seq<char>)
    requires
        head + a == head + b,
    ensures
        a == b,
{
    assert(a =~= (head + a).skip(head.len() as int));
    assert(b =~= (head + b).skip(head.len() as int));
}

} // verus!
