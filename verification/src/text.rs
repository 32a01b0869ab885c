//! Text: the small vocabulary of string operations the rest of the library
//! renders reports, splits paths and orders names with.
//!
//! A text is modelled by the sequence of its characters.

use vstd::prelude::*;
use vstd::string::*;

verus! {

/// `String::push` appends one character and changes nothing else.
pub assume_specification[ String::push ](s: &mut String, ch: char)
    ensures
        final(s)@ == old(s)@.push(ch),
;

// ---------------------------------------------------------------------------
// Characters, equality, order
// ---------------------------------------------------------------------------

/// The characters of a text, in order.
pub fn chars_of(s: &str) -> (r: Vec<char>)
    ensures
        r@ == s@,
{
    let mut out: Vec<char> = Vec::new();
    for c in it: s.chars()
        invariant
            it.seq() == s@,
            out@ == s@.take(it.index() as int),
    {
        proof {
            assert(s@.take(it.index() as int + 1) == s@.take(it.index() as int).push(c));
        }
        out.push(c);
    }
    assert(s@.take(s@.len() as int) == s@);
    out
}

/// A text with the given characters.
pub fn text_of(chars: &Vec<char>) -> (r: String)
    ensures
        r@ == chars@,
{
    let mut out = String::new();
    let mut i: usize = 0;
    while i < chars.len()
        invariant
            i <= chars@.len(),
            out@ == chars@.take(i as int),
        decreases chars@.len() - i,
    {
        assert(chars@.take(i + 1) == chars@.take(i as int).push(chars@[i as int]));
        out.push(chars[i]);
        i += 1;
    }
    assert(chars@.take(chars@.len() as int) == chars@);
    out
}

/// Whether two texts hold the same characters.
pub fn same(a: &str, b: &str) -> (r: bool)
    ensures
        r == (a@ == b@),
{
    let x = chars_of(a);
    let y = chars_of(b);
    if x.len() != y.len() {
        return false;
    }
    let mut i: usize = 0;
    while i < x.len()
        invariant
            i <= x@.len(),
            x@ == a@,
            y@ == b@,
            x@.len() == y@.len(),
            forall|j: int| 0 <= j < i ==> x@[j] == y@[j],
        decreases x@.len() - i,
    {
        if x[i] != y[i] {
            return false;
        }
        i += 1;
    }
    assert(a@ =~= b@);
    true
}

/// Whether `a` comes strictly before `b`: compared character by character
/// by code point, a proper prefix first.
pub open spec fn precedes(a: Seq<char>, b: Seq<char>) -> bool
    decreases a.len(),
{
    if b.len() == 0 {
        false
    } else if a.len() == 0 {
        true
    } else if a[0] != b[0] {
        (a[0] as int) < (b[0] as int)
    } else {
        precedes(a.drop_first(), b.drop_first())
    }
}

proof fn lemma_precedes_skip(a: Seq<char>, b: Seq<char>, n: int)
    requires
        0 <= n <= a.len(),
        n <= b.len(),
        a.take(n) == b.take(n),
    ensures
        precedes(a, b) == precedes(a.skip(n), b.skip(n)),
    decreases n,
{
    if n == 0 {
        assert(a.skip(0) == a);
        assert(b.skip(0) == b);
    } else {
        assert(a[0] == a.take(n)[0]);
        assert(b[0] == b.take(n)[0]);
        let x = a.drop_first();
        let y = b.drop_first();
        assert(x.take(n - 1) == a.take(n).drop_first());
        assert(y.take(n - 1) == b.take(n).drop_first());
        lemma_precedes_skip(x, y, n - 1);
        assert(x.skip(n - 1) == a.skip(n));
        assert(y.skip(n - 1) == b.skip(n));
    }
}

/// `precedes`, decided.
pub fn before(a: &str, b: &str) -> (r: bool)
    ensures
        r == precedes(a@, b@),
{
    let x = chars_of(a);
    let y = chars_of(b);
    let mut i: usize = 0;
    while i < x.len() && i < y.len()
        invariant
            i <= x@.len(),
            i <= y@.len(),
            x@ == a@,
            y@ == b@,
            a@.take(i as int) == b@.take(i as int),
        decreases x@.len() - i,
    {
        if x[i] != y[i] {
            proof {
                lemma_precedes_skip(a@, b@, i as int);
            }
            return x[i] < y[i];
        }
        assert(a@.take(i + 1) == a@.take(i as int).push(a@[i as int]));
        assert(b@.take(i + 1) == b@.take(i as int).push(b@[i as int]));
        i += 1;
    }
    proof {
        lemma_precedes_skip(a@, b@, i as int);
    }
    i < y.len()
}

/// The order on texts is strict: nothing comes before itself, and of two
/// texts at most one comes before the other.
pub proof fn lemma_precedes_asymmetric(a: Seq<char>, b: Seq<char>)
    ensures
        !precedes(a, a),
        !(precedes(a, b) && precedes(b, a)),
    decreases a.len(),
{
    if a.len() > 0 {
        lemma_precedes_asymmetric(a.drop_first(), if b.len() > 0 { b.drop_first() } else { b });
    }
}

/// The order on texts is transitive.
pub proof fn lemma_precedes_transitive(a: Seq<char>, b: Seq<char>, c: Seq<char>)
    requires
        precedes(a, b),
        precedes(b, c),
    ensures
        precedes(a, c),
    decreases a.len(),
{
    if a.len() > 0 && a[0] == b[0] && b[0] == c[0] {
        lemma_precedes_transitive(a.drop_first(), b.drop_first(), c.drop_first());
    }
}

/// The order on texts is total: of two different texts one comes first.
pub proof fn lemma_precedes_total(a: Seq<char>, b: Seq<char>)
    ensures
        a == b || precedes(a, b) || precedes(b, a),
    decreases a.len(),
{
    if a.len() == 0 && b.len() == 0 {
        assert(a =~= b);
    } else if a.len() > 0 && b.len() > 0 && a[0] == b[0] {
        lemma_precedes_total(a.drop_first(), b.drop_first());
        if a.drop_first() == b.drop_first() {
            assert(a =~= seq![a[0]] + a.drop_first());
            assert(b =~= seq![b[0]] + b.drop_first());
        }
    }
}

// ---------------------------------------------------------------------------
// Numbers
// ---------------------------------------------------------------------------

/// One decimal digit.
pub open spec fn digit(d: nat) -> char {
    ('0' as int + d) as char
}

/// A number in decimal, without leading zeros.
pub open spec fn decimal(n: nat) -> Seq<char>
    decreases n,
{
    if n < 10 {
        seq![digit(n)]
    } else {
        decimal(n / 10).push(digit(n % 10))
    }
}

/// `digit`, computed.
fn digit_char(d: u64) -> (c: char)
    requires
        d < 10,
    ensures
        c == digit(d as nat),
{
    match d {
        0 => '0',
        1 => '1',
        2 => '2',
        3 => '3',
        4 => '4',
        5 => '5',
        6 => '6',
        7 => '7',
        8 => '8',
        _ => '9',
    }
}

/// `decimal`, computed.
pub fn show(n: u64) -> (r: String)
    ensures
        r@ == decimal(n as nat),
    decreases n,
{
    if n < 10 {
        let mut out = String::new();
        out.push(digit_char(n));
        assert(out@ =~= seq![digit(n as nat)]);
        out
    } else {
        let mut out = show(n / 10);
        out.push(digit_char(n % 10));
        out
    }
}

/// `decimal` of a size.
pub fn show_size(n: usize) -> (r: String)
    ensures
        r@ == decimal(n as nat),
{
    show(n as u64)
}

/// The value of a digit character.
pub open spec fn digit_value(c: char) -> nat {
    (c as int - '0' as int) as nat
}

/// Whether a character is an ASCII digit.
pub open spec fn is_digit(c: char) -> bool {
    '0' as int <= c as int <= '9' as int
}

/// The number a run of digits denotes.
pub open spec fn digits_value(s: Seq<char>) -> nat
    decreases s.len(),
{
    if s.len() == 0 {
        0
    } else {
        digits_value(s.drop_last()) * 10 + digit_value(s.last())
    }
}

/// A number without its optional leading `+`.
pub open spec fn unsigned_part(s: Seq<char>) -> Seq<char> {
    if s.len() > 0 && s[0] == '+' {
        s.drop_first()
    } else {
        s
    }
}

/// Reading an unsigned number: an optional `+`, then one or more digits
/// whose value is at most `max`.
pub open spec fn read_number(s: Seq<char>, max: nat) -> Option<nat> {
    let body = unsigned_part(s);
    if body.len() > 0 && (forall|i: int| 0 <= i < body.len() ==> is_digit(#[trigger] body[i]))
        && digits_value(body) <= max {
        Some(digits_value(body))
    } else {
        None
    }
}

proof fn lemma_digits_value_grows(s: Seq<char>, n: int)
    requires
        0 <= n <= s.len(),
    ensures
        digits_value(s.take(n)) <= digits_value(s),
    decreases s.len() - n,
{
    if n == s.len() {
        assert(s.take(n) == s);
    } else {
        lemma_digits_value_grows(s, n + 1);
        assert(s.take(n + 1).drop_last() == s.take(n));
    }
}

/// `read_number`, computed.
pub fn parse_number(s: &str, max: u64) -> (r: Option<u64>)
    ensures
        r is Some <==> read_number(s@, max as nat) is Some,
        r is Some ==> r->0 as nat == read_number(s@, max as nat)->0,
{
    let chars = chars_of(s);
    let start: usize = if chars.len() > 0 && chars[0] == '+' {
        1
    } else {
        0
    };
    let ghost body = unsigned_part(s@);
    assert(body =~= s@.skip(start as int));
    if start == chars.len() {
        return None;
    }
    let mut value: u64 = 0;
    let mut i: usize = start;
    while i < chars.len()
        invariant
            start <= i <= chars@.len(),
            chars@ == s@,
            body == unsigned_part(s@),
            body == s@.skip(start as int),
            value as nat == digits_value(body.take(i - start)),
            value <= max,
            forall|j: int| 0 <= j < i - start ==> is_digit(#[trigger] body[j]),
        decreases chars@.len() - i,
    {
        let c = chars[i];
        let ghost k = i - start;
        assert(body[k] == c);
        if c < '0' || c > '9' {
            assert(!is_digit(body[k]));
            return None;
        }
        let d: u64 = (c as u32 - '0' as u32) as u64;
        proof {
            assert(body.take(k + 1).drop_last() == body.take(k));
            assert(body.take(k + 1).last() == c);
            lemma_digits_value_grows(body, k + 1);
        }
        if value > (u64::MAX - d) / 10 {
            assert(value * 10 + d > u64::MAX);
            return None;
        }
        value = value * 10 + d;
        if value > max {
            return None;
        }
        i += 1;
    }
    assert(body.take(i - start) == body);
    Some(value)
}

// ---------------------------------------------------------------------------
// Lists of texts
// ---------------------------------------------------------------------------

/// The characters of each text of a list.
pub open spec fn texts(list: Seq<String>) -> Seq<Seq<char>> {
    Seq::new(list.len(), |i: int| list[i]@)
}

/// The texts one after the other, with `sep` between neighbours.
pub open spec fn joined(list: Seq<Seq<char>>, sep: Seq<char>) -> Seq<char>
    decreases list.len(),
{
    if list.len() == 0 {
        seq![]
    } else if list.len() == 1 {
        list[0]
    } else {
        joined(list.drop_last(), sep) + sep + list.last()
    }
}

/// `joined`, computed.
pub fn join(list: &Vec<String>, sep: &str) -> (r: String)
    ensures
        r@ == joined(texts(list@), sep@),
{
    let mut out = String::new();
    let mut i: usize = 0;
    while i < list.len()
        invariant
            i <= list@.len(),
            out@ == joined(texts(list@).take(i as int), sep@),
        decreases list@.len() - i,
    {
        let ghost all = texts(list@);
        assert(all.take(i + 1).drop_last() == all.take(i as int));
        if i > 0 {
            out.append(sep);
            out.append(list[i].as_str());
        } else {
            out.append(list[i].as_str());
            assert(out@ =~= all[0]);
        }
        i += 1;
    }
    assert(texts(list@).take(i as int) == texts(list@));
    out
}

/// Whether a list holds a text.
pub fn holds(list: &Vec<String>, wanted: &str) -> (r: bool)
    ensures
        r == texts(list@).contains(wanted@),
{
    let mut i: usize = 0;
    while i < list.len()
        invariant
            i <= list@.len(),
            forall|j: int| 0 <= j < i ==> list@[j]@ != wanted@,
        decreases list@.len() - i,
    {
        if same(list[i].as_str(), wanted) {
            assert(texts(list@)[i as int] == wanted@);
            return true;
        }
        i += 1;
    }
    false
}

/// Whether two lists hold the same texts in the same order.
pub fn same_list(a: &Vec<String>, b: &Vec<String>) -> (r: bool)
    ensures
        r == (texts(a@) == texts(b@)),
{
    if a.len() != b.len() {
        assert(texts(a@).len() != texts(b@).len());
        return false;
    }
    let mut i: usize = 0;
    while i < a.len()
        invariant
            i <= a@.len(),
            a@.len() == b@.len(),
            forall|j: int| 0 <= j < i ==> a@[j]@ == b@[j]@,
        decreases a@.len() - i,
    {
        if !same(a[i].as_str(), b[i].as_str()) {
            assert(texts(a@)[i as int] != texts(b@)[i as int]);
            return false;
        }
        i += 1;
    }
    assert(texts(a@) =~= texts(b@));
    true
}

/// A copy of a list of texts.
pub fn copy_list(list: &Vec<String>) -> (r: Vec<String>)
    ensures
        texts(r@) == texts(list@),
{
    let mut out: Vec<String> = Vec::new();
    let mut i: usize = 0;
    while i < list.len()
        invariant
            i <= list@.len(),
            out@.len() == i,
            forall|j: int| 0 <= j < i ==> out@[j]@ == list@[j]@,
        decreases list@.len() - i,
    {
        out.push(list[i].clone());
        i += 1;
    }
    assert(texts(out@) =~= texts(list@));
    out
}

/// `a` does not come after `b`.
pub open spec fn at_most(a: Seq<char>, b: Seq<char>) -> bool {
    !precedes(b, a)
}

/// The texts of a list in ascending order, each as often as it occurs.
pub open spec fn ascending(list: Seq<Seq<char>>) -> Seq<Seq<char>> {
    list.sort_by(|a: Seq<char>, b: Seq<char>| at_most(a, b))
}

/// Whether no text of a list comes after a later one.
pub open spec fn is_ascending(list: Seq<Seq<char>>) -> bool {
    forall|i: int, j: int| 0 <= i < j < list.len() ==> at_most(#[trigger] list[i], #[trigger] list[j])
}

/// `at_most` is a total order, and `ascending` arranges by it.
pub proof fn lemma_ascending(list: Seq<Seq<char>>)
    ensures
        is_ascending(ascending(list)),
        ascending(list).to_multiset() == list.to_multiset(),
{
    let leq = |a: Seq<char>, b: Seq<char>| at_most(a, b);
    assert forall|a: Seq<char>| #[trigger] leq(a, a) by {
        lemma_precedes_asymmetric(a, a);
    }
    assert forall|a: Seq<char>, b: Seq<char>| #[trigger] leq(a, b) && #[trigger] leq(b, a) implies a
        == b by {
        lemma_precedes_total(a, b);
    }
    assert forall|a: Seq<char>, b: Seq<char>| #[trigger] leq(a, b) || #[trigger] leq(b, a) by {
        lemma_precedes_asymmetric(a, b);
    }
    assert forall|a: Seq<char>, b: Seq<char>, c: Seq<char>| #[trigger]
        leq(a, b) && #[trigger] leq(b, c) implies leq(a, c) by {
        lemma_at_most_transitive(a, b, c);
    }
    assert(vstd::relations::total_ordering(leq));
    list.lemma_sort_by_ensures(leq);
    let out = ascending(list);
    assert(vstd::relations::sorted_by(out, leq));
    assert forall|i: int, j: int| 0 <= i < j < out.len() implies at_most(
        #[trigger] out[i],
        #[trigger] out[j],
    ) by {
        assert(leq(out[i], out[j]));
    }
}

proof fn lemma_at_most_transitive(a: Seq<char>, b: Seq<char>, c: Seq<char>)
    requires
        at_most(a, b),
        at_most(b, c),
    ensures
        at_most(a, c),
{
    if precedes(c, a) {
        lemma_precedes_total(a, b);
        if a != b {
            lemma_precedes_transitive(c, a, b);
        }
    }
}

/// Two ascending lists that hold the same texts equally often are the same
/// list: the order of a list's texts leaves no trace in its arrangement.
pub proof fn lemma_ascending_unique(a: Seq<Seq<char>>, b: Seq<Seq<char>>)
    requires
        is_ascending(a),
        is_ascending(b),
        a.to_multiset() == b.to_multiset(),
    ensures
        a == b,
    decreases a.len(),
{
    broadcast use vstd::seq_lib::group_to_multiset_ensures;

    a.to_multiset_ensures();
    b.to_multiset_ensures();
    assert(a.len() == b.len());
    if a.len() == 0 {
        assert(a =~= b);
    } else {
        let n = a.len() - 1;
        let x = a[n];
        let y = b[n];
        assert(a.contains(x));
        assert(b.contains(y));
        assert(a.to_multiset().count(x) > 0);
        assert(b.to_multiset().count(y) > 0);
        assert(b.contains(x));
        assert(a.contains(y));
        let i = choose|i: int| 0 <= i < b.len() && b[i] == x;
        let j = choose|j: int| 0 <= j < a.len() && a[j] == y;
        assert(at_most(x, y)) by {
            if i < n {
                assert(at_most(b[i], b[n]));
            } else {
                lemma_precedes_asymmetric(x, x);
            }
        }
        assert(at_most(y, x)) by {
            if j < n {
                assert(at_most(a[j], a[n]));
            } else {
                lemma_precedes_asymmetric(x, x);
            }
        }
        lemma_precedes_total(x, y);
        assert(x == y);
        let a1 = a.remove(n);
        let b1 = b.remove(n);
        assert(a1 =~= a.drop_last());
        assert(b1 =~= b.drop_last());
        assert(a1.to_multiset() == a.to_multiset().remove(x));
        assert(b1.to_multiset() == b.to_multiset().remove(x));
        lemma_ascending_unique(a1, b1);
        assert(a =~= a.drop_last().push(x));
        assert(b =~= b.drop_last().push(x));
    }
}

/// `ascending`, computed.
pub fn sort(list: Vec<String>) -> (r: Vec<String>)
    ensures
        texts(r@) == ascending(texts(list@)),
{
    let mut out: Vec<String> = Vec::new();
    let mut n: usize = 0;
    assert(texts(out@).to_multiset() == texts(list@).take(0).to_multiset()) by {
        assert(texts(out@) =~= texts(list@).take(0));
    }
    while n < list.len()
        invariant
            n <= list@.len(),
            is_ascending(texts(out@)),
            texts(out@).to_multiset() == texts(list@).take(n as int).to_multiset(),
        decreases list@.len() - n,
    {
        let item = list[n].clone();
        let mut at: usize = out.len();
        while at > 0 && before(item.as_str(), out[at - 1].as_str())
            invariant
                at <= out@.len(),
                is_ascending(texts(out@)),
                forall|k: int| at <= k < out@.len() ==> precedes(item@, #[trigger] out@[k]@),
            decreases at,
        {
            at -= 1;
        }
        let ghost earlier = texts(out@);
        out.insert(at, item);
        proof {
            let later = texts(out@);
            assert(later =~= earlier.insert(at as int, item@));
            assert forall|i: int, j: int| 0 <= i < j < later.len() implies at_most(
                #[trigger] later[i],
                #[trigger] later[j],
            ) by {
                if i < at && j == at {
                    assert(at_most(earlier[at - 1], item@));
                    if i < at - 1 {
                        assert(at_most(earlier[i], earlier[at - 1]));
                        lemma_at_most_transitive(earlier[i], earlier[at - 1], item@);
                    }
                } else if i == at {
                    assert(precedes(item@, earlier[j - 1]));
                    lemma_precedes_asymmetric(item@, earlier[j - 1]);
                } else {
                    let x = if i < at { i } else { i - 1 };
                    let y = if j < at { j } else { j - 1 };
                    assert(at_most(earlier[x], earlier[y]));
                }
            }
            vstd::seq_lib::to_multiset_insert(earlier, at as int, item@);
            let all = texts(list@);
            assert(all.take(n + 1) =~= all.take(n as int).push(item@));
            vstd::seq_lib::to_multiset_build(all.take(n as int), item@);
        }
        n += 1;
    }
    proof {
        assert(texts(list@).take(n as int) == texts(list@));
        lemma_ascending(texts(list@));
        lemma_ascending_unique(texts(out@), ascending(texts(list@)));
    }
    out
}

/// A list without the texts that repeat their left neighbour.
pub open spec fn without_repeats(list: Seq<Seq<char>>) -> Seq<Seq<char>>
    decreases list.len(),
{
    if list.len() == 0 {
        seq![]
    } else {
        let kept = without_repeats(list.drop_last());
        if kept.len() > 0 && kept.last() == list.last() {
            kept
        } else {
            kept.push(list.last())
        }
    }
}

/// The texts that occur in a list, once each, in ascending order.
pub open spec fn distinct(list: Seq<Seq<char>>) -> Seq<Seq<char>> {
    without_repeats(ascending(list))
}

/// Whether each text of a list comes before every later one.
pub open spec fn is_strictly_ascending(list: Seq<Seq<char>>) -> bool {
    forall|i: int, j: int|
        0 <= i < j < list.len() ==> precedes(#[trigger] list[i], #[trigger] list[j])
}

proof fn lemma_without_repeats(list: Seq<Seq<char>>)
    requires
        is_ascending(list),
    ensures
        is_strictly_ascending(without_repeats(list)),
        forall|x: Seq<char>| #[trigger] without_repeats(list).contains(x) <==> list.contains(x),
        list.len() > 0 ==> without_repeats(list).len() > 0 && without_repeats(list).last()
            == list.last(),
    decreases list.len(),
{
    if list.len() > 0 {
        let front = list.drop_last();
        let kept = without_repeats(front);
        let out = without_repeats(list);
        assert(is_ascending(front)) by {
            assert forall|i: int, j: int| 0 <= i < j < front.len() implies at_most(
                #[trigger] front[i],
                #[trigger] front[j],
            ) by {
                assert(at_most(list[i], list[j]));
            }
        }
        lemma_without_repeats(front);
        assert forall|x: Seq<char>| #[trigger] out.contains(x) <==> list.contains(x) by {
            if list.contains(x) {
                let i = choose|i: int| 0 <= i < list.len() && list[i] == x;
                if i < front.len() {
                    assert(front[i] == x);
                    assert(without_repeats(front).contains(x));
                    let k = choose|k: int| 0 <= k < kept.len() && kept[k] == x;
                    assert(out[k] == x);
                } else {
                    assert(out[out.len() - 1] == x);
                }
            }
            if out.contains(x) {
                let k = choose|k: int| 0 <= k < out.len() && out[k] == x;
                if k < kept.len() {
                    assert(kept[k] == x);
                    assert(without_repeats(front).contains(x));
                    assert(front.contains(x));
                    let i = choose|i: int| 0 <= i < front.len() && front[i] == x;
                    assert(list[i] == x);
                } else {
                    assert(list[list.len() - 1] == x);
                }
            }
        }
        assert forall|i: int, j: int| 0 <= i < j < out.len() implies precedes(
            #[trigger] out[i],
            #[trigger] out[j],
        ) by {
            if j < kept.len() {
                assert(precedes(kept[i], kept[j]));
            } else {
                let tail = kept.last();
                assert(front.len() > 0);
                assert(tail == front.last());
                assert(at_most(list[front.len() - 1], list[list.len() - 1]));
                lemma_precedes_total(tail, list.last());
                if i < kept.len() - 1 {
                    assert(precedes(kept[i], kept[kept.len() - 1]));
                    lemma_precedes_transitive(kept[i], tail, list.last());
                }
            }
        }
    }
}

/// `distinct` holds what the list holds, each text before every later one.
pub proof fn lemma_distinct(list: Seq<Seq<char>>)
    ensures
        is_strictly_ascending(distinct(list)),
        forall|x: Seq<char>| #[trigger] distinct(list).contains(x) <==> list.contains(x),
{
    lemma_ascending(list);
    let sorted = ascending(list);
    lemma_without_repeats(sorted);
    sorted.to_multiset_ensures();
    list.to_multiset_ensures();
    assert forall|x: Seq<char>| sorted.contains(x) <==> list.contains(x) by {
        assert(sorted.contains(x) <==> sorted.to_multiset().count(x) > 0);
        assert(list.contains(x) <==> list.to_multiset().count(x) > 0);
    }
}

/// A list whose texts each come before every later one is left as it is.
pub proof fn lemma_distinct_idle(list: Seq<Seq<char>>)
    requires
        is_strictly_ascending(list),
    ensures
        distinct(list) == list,
{
    assert(is_ascending(list)) by {
        assert forall|i: int, j: int| 0 <= i < j < list.len() implies at_most(
            #[trigger] list[i],
            #[trigger] list[j],
        ) by {
            lemma_precedes_asymmetric(list[i], list[j]);
        }
    }
    lemma_ascending(list);
    lemma_ascending_unique(ascending(list), list);
    lemma_without_repeats_idle(list);
}

proof fn lemma_without_repeats_idle(list: Seq<Seq<char>>)
    requires
        is_strictly_ascending(list),
    ensures
        without_repeats(list) == list,
    decreases list.len(),
{
    if list.len() > 0 {
        let front = list.drop_last();
        assert forall|i: int, j: int| 0 <= i < j < front.len() implies precedes(
            #[trigger] front[i],
            #[trigger] front[j],
        ) by {
            assert(precedes(list[i], list[j]));
        }
        lemma_without_repeats_idle(front);
        if front.len() > 0 {
            assert(precedes(list[list.len() - 2], list[list.len() - 1]));
            lemma_precedes_asymmetric(front.last(), list.last());
        }
        assert(list =~= front.push(list.last()));
    }
}

/// Lists that hold the same texts have the same texts in them, however often
/// and in whatever order.
pub proof fn lemma_distinct_same(a: Seq<Seq<char>>, b: Seq<Seq<char>>)
    requires
        forall|x: Seq<char>| #[trigger] a.contains(x) <==> b.contains(x),
    ensures
        distinct(a) == distinct(b),
{
    broadcast use vstd::seq_lib::group_to_multiset_ensures;

    lemma_distinct(a);
    lemma_distinct(b);
    let x = distinct(a);
    let y = distinct(b);
    lemma_strictly_ascending(x);
    lemma_strictly_ascending(y);
    x.lemma_multiset_has_no_duplicates();
    y.lemma_multiset_has_no_duplicates();
    assert(x.to_multiset() =~= y.to_multiset()) by {
        assert forall|t: Seq<char>| x.to_multiset().count(t) == y.to_multiset().count(t) by {
            assert(x.contains(t) <==> y.contains(t)) by {
                assert(a.contains(t) <==> b.contains(t));
            }
            if x.contains(t) {
                assert(x.to_multiset().contains(t));
                assert(y.to_multiset().contains(t));
            }
        }
    }
    lemma_ascending_unique(x, y);
}

proof fn lemma_strictly_ascending(list: Seq<Seq<char>>)
    requires
        is_strictly_ascending(list),
    ensures
        is_ascending(list),
        list.no_duplicates(),
{
    assert forall|i: int, j: int| 0 <= i < j < list.len() implies at_most(
        #[trigger] list[i],
        #[trigger] list[j],
    ) by {
        lemma_precedes_asymmetric(list[i], list[j]);
    }
    assert forall|i: int, j: int| 0 <= i < j < list.len() implies list[i] != list[j] by {
        lemma_precedes_asymmetric(list[i], list[j]);
    }
}

/// `distinct`, computed.
pub fn sort_distinct(list: Vec<String>) -> (r: Vec<String>)
    ensures
        texts(r@) == distinct(texts(list@)),
{
    let sorted = sort(list);
    let mut out: Vec<String> = Vec::new();
    let mut i: usize = 0;
    assert(texts(out@) =~= without_repeats(texts(sorted@).take(0)));
    while i < sorted.len()
        invariant
            i <= sorted@.len(),
            texts(out@) == without_repeats(texts(sorted@).take(i as int)),
        decreases sorted@.len() - i,
    {
        let ghost kept = texts(out@);
        assert(texts(sorted@).take(i + 1).drop_last() == texts(sorted@).take(i as int));
        assert(texts(sorted@).take(i + 1).last() == sorted@[i as int]@);
        if out.len() > 0 && same(out[out.len() - 1].as_str(), sorted[i].as_str()) {
            assert(kept.last() == out@[out@.len() - 1]@);
        } else {
            assert(out@.len() > 0 ==> kept.last() == out@[out@.len() - 1]@);
            out.push(sorted[i].clone());
            assert(texts(out@) =~= kept.push(sorted@[i as int]@));
        }
        i += 1;
    }
    assert(texts(sorted@).take(i as int) == texts(sorted@));
    out
}

// ---------------------------------------------------------------------------
// Cutting and padding
// ---------------------------------------------------------------------------

/// The stretches of a text between occurrences of `sep`. There is one more
/// stretch than there are separators, and stretches may be empty.
pub open spec fn pieces(s: Seq<char>, sep: char) -> Seq<Seq<char>>
    decreases s.len(),
{
    if s.len() == 0 {
        seq![seq![]]
    } else {
        let done = pieces(s.drop_last(), sep);
        if s.last() == sep {
            done.push(seq![])
        } else {
            done.drop_last().push(done.last().push(s.last()))
        }
    }
}

/// A text always has at least one piece.
pub proof fn lemma_pieces_nonempty(s: Seq<char>, sep: char)
    ensures
        pieces(s, sep).len() > 0,
    decreases s.len(),
{
    if s.len() > 0 {
        lemma_pieces_nonempty(s.drop_last(), sep);
    }
}

/// `pieces`, computed.
pub fn split(s: &str, sep: char) -> (r: Vec<String>)
    ensures
        texts(r@) == pieces(s@, sep),
{
    let chars = chars_of(s);
    let mut out: Vec<String> = Vec::new();
    let mut current = String::new();
    let mut i: usize = 0;
    assert(chars@.take(0) =~= seq![]);
    assert(texts(out@).push(current@) =~= pieces(chars@.take(0), sep));
    while i < chars.len()
        invariant
            i <= chars@.len(),
            texts(out@).push(current@) == pieces(chars@.take(i as int), sep),
        decreases chars@.len() - i,
    {
        let ghost so_far = pieces(chars@.take(i as int), sep);
        let ghost prior = texts(out@);
        assert(so_far.last() == current@);
        assert(so_far.drop_last() =~= prior);
        assert(chars@.take(i + 1).drop_last() == chars@.take(i as int));
        if chars[i] == sep {
            out.push(current);
            current = String::new();
            assert(texts(out@) =~= so_far);
        } else {
            current.push(chars[i]);
        }
        assert(texts(out@).push(current@) =~= pieces(chars@.take(i + 1), sep));
        i += 1;
    }
    assert(chars@.take(i as int) == chars@);
    out.push(current);
    assert(texts(out@) =~= pieces(s@, sep));
    out
}

/// Whether a text begins with another.
pub open spec fn begins(s: Seq<char>, prefix: Seq<char>) -> bool {
    prefix.len() <= s.len() && s.take(prefix.len() as int) == prefix
}

/// `begins`, decided.
pub fn starts_with(s: &str, prefix: &str) -> (r: bool)
    ensures
        r == begins(s@, prefix@),
{
    let n = prefix.unicode_len();
    if n > s.unicode_len() {
        return false;
    }
    same(s.substring_char(0, n), prefix)
}

/// What follows a prefix, where the text begins with it.
pub open spec fn after_prefix(s: Seq<char>, prefix: Seq<char>) -> Option<Seq<char>> {
    if begins(s, prefix) {
        Some(s.skip(prefix.len() as int))
    } else {
        None
    }
}

/// `after_prefix`, computed.
pub fn strip_prefix(s: &str, prefix: &str) -> (r: Option<String>)
    ensures
        r is Some <==> after_prefix(s@, prefix@) is Some,
        r is Some ==> r->0@ == after_prefix(s@, prefix@)->0,
{
    if starts_with(s, prefix) {
        let n = prefix.unicode_len();
        let m = s.unicode_len();
        let rest = s.substring_char(n, m).to_owned();
        assert(rest@ =~= s@.skip(n as int));
        Some(rest)
    } else {
        None
    }
}

/// A text without its ending, where it ends so, and whole otherwise.
pub open spec fn without_suffix(s: Seq<char>, suffix: Seq<char>) -> Seq<char> {
    if suffix.len() <= s.len() && s.skip(s.len() - suffix.len()) == suffix {
        s.take(s.len() - suffix.len())
    } else {
        s
    }
}

/// `without_suffix`, computed.
pub fn strip_suffix(s: &str, suffix: &str) -> (r: String)
    ensures
        r@ == without_suffix(s@, suffix@),
{
    let n = suffix.unicode_len();
    let m = s.unicode_len();
    if n <= m && same(s.substring_char(m - n, m), suffix) {
        assert(s@.subrange(m - n, m as int) =~= s@.skip(m - n));
        s.substring_char(0, m - n).to_owned()
    } else {
        assert(n <= m ==> s@.subrange(m - n, m as int) =~= s@.skip(m - n));
        s.to_owned()
    }
}

/// `n` spaces.
pub open spec fn spaces(n: nat) -> Seq<char> {
    Seq::new(n, |i: int| ' ')
}

/// A text filled up with spaces behind it to at least `width` characters.
pub open spec fn padded(s: Seq<char>, width: nat) -> Seq<char> {
    if s.len() < width {
        s + spaces((width - s.len()) as nat)
    } else {
        s
    }
}

/// A text filled up with spaces before it to at least `width` characters.
pub open spec fn aligned(s: Seq<char>, width: nat) -> Seq<char> {
    if s.len() < width {
        spaces((width - s.len()) as nat) + s
    } else {
        s
    }
}

/// `spaces`, computed.
fn blank(n: usize) -> (r: String)
    ensures
        r@ == spaces(n as nat),
{
    let mut out = String::new();
    let mut i: usize = 0;
    assert(out@ =~= spaces(0));
    while i < n
        invariant
            i <= n,
            out@ == spaces(i as nat),
        decreases n - i,
    {
        out.push(' ');
        assert(out@ =~= spaces((i + 1) as nat));
        i += 1;
    }
    out
}

/// `padded`, computed.
pub fn pad(s: &str, width: usize) -> (r: String)
    ensures
        r@ == padded(s@, width as nat),
{
    let n = s.unicode_len();
    let mut out = s.to_owned();
    if n < width {
        out.append(blank(width - n).as_str());
    }
    out
}

/// `aligned`, computed.
pub fn align(s: &str, width: usize) -> (r: String)
    ensures
        r@ == aligned(s@, width as nat),
{
    let n = s.unicode_len();
    if n < width {
        let mut out = blank(width - n);
        out.append(s);
        out
    } else {
        s.to_owned()
    }
}

/// A text of at most `max` characters: whole where it fits, else its head
/// with an ellipsis as the last of the `max`.
pub open spec fn shortened(s: Seq<char>, max: nat) -> Seq<char> {
    if s.len() <= max {
        s
    } else {
        s.take(if max == 0 { 0 } else { max - 1 }).push('\u{2026}')
    }
}

/// `shortened`, computed.
pub fn shorten(s: &str, max: usize) -> (r: String)
    ensures
        r@ == shortened(s@, max as nat),
{
    let n = s.unicode_len();
    if n <= max {
        s.to_owned()
    } else {
        let keep: usize = if max == 0 {
            0
        } else {
            max - 1
        };
        let mut out = s.substring_char(0, keep).to_owned();
        assert(out@ =~= s@.take(keep as int));
        out.push('\u{2026}');
        out
    }
}

/// How many bytes UTF-8 takes for a character.
pub open spec fn width(c: char) -> nat {
    if (c as int) < 0x80 {
        1
    } else if (c as int) < 0x800 {
        2
    } else if (c as int) < 0x10000 {
        3
    } else {
        4
    }
}

/// `width`, computed.
fn width_of(c: char) -> (r: usize)
    ensures
        r == width(c),
{
    if c <= '\u{7f}' {
        1
    } else if c <= '\u{7ff}' {
        2
    } else if c <= '\u{ffff}' {
        3
    } else {
        4
    }
}

/// How many of a text's first characters fit into `n` bytes together.
pub open spec fn fitting(s: Seq<char>, n: nat) -> nat
    decreases s.len(),
{
    if s.len() > 0 && width(s[0]) <= n {
        1 + fitting(s.skip(1), (n - width(s[0])) as nat)
    } else {
        0
    }
}

/// Whether a character of a text ends at exactly its `n`th byte.
pub open spec fn ends_at(s: Seq<char>, n: nat) -> bool
    decreases s.len(),
{
    n == 0 || (s.len() > 0 && width(s[0]) <= n && ends_at(s.skip(1), (n - width(s[0])) as nat))
}

/// The first characters of a text that fit into `n` bytes together.
pub open spec fn cut(s: Seq<char>, n: nat) -> Seq<char> {
    s.take(fitting(s, n) as int)
}

/// A text has at least as many characters as fit.
pub proof fn lemma_fitting(s: Seq<char>, n: nat)
    ensures
        fitting(s, n) <= s.len(),
    decreases s.len(),
{
    if s.len() > 0 && width(s[0]) <= n {
        lemma_fitting(s.skip(1), (n - width(s[0])) as nat);
    }
}

/// One-byte characters fit as many as there are bytes.
pub proof fn lemma_fitting_narrow(s: Seq<char>, n: nat)
    requires
        n <= s.len(),
        forall|i: int| 0 <= i < s.len() ==> (#[trigger] s[i] as int) < 0x80,
    ensures
        fitting(s, n) == n,
        ends_at(s, n),
    decreases s.len(),
{
    if n > 0 {
        assert forall|i: int| 0 <= i < s.skip(1).len() implies (#[trigger] s.skip(1)[i] as int)
            < 0x80 by {
            assert(s.skip(1)[i] == s[i + 1]);
        }
        lemma_fitting_narrow(s.skip(1), (n - 1) as nat);
    }
}

/// `cut`, computed.
pub fn cut_at(s: &str, n: usize) -> (r: &str)
    ensures
        r@ == cut(s@, n as nat),
{
    let chars = chars_of(s);
    let mut left: usize = n;
    let mut i: usize = 0;
    assert(s@.skip(0) =~= s@);
    while i < chars.len() && width_of(chars[i]) <= left
        invariant
            chars@ == s@,
            i <= chars@.len(),
            fitting(s@, n as nat) == i + fitting(s@.skip(i as int), left as nat),
        decreases chars@.len() - i,
    {
        assert(s@.skip(i as int)[0] == chars@[i as int]);
        assert(s@.skip(i as int).skip(1) =~= s@.skip(i + 1));
        left -= width_of(chars[i]);
        i += 1;
    }
    proof {
        if i < chars@.len() {
            assert(s@.skip(i as int)[0] == chars@[i as int]);
        }
        assert(fitting(s@.skip(i as int), left as nat) == 0);
    }
    s.substring_char(0, i)
}

// ---------------------------------------------------------------------------
// Lines
// ---------------------------------------------------------------------------

/// A terminated line without the carriage return before its newline.
pub open spec fn without_return(line: Seq<char>) -> Seq<char> {
    if line.len() > 0 && line.last() == '\r' {
        line.drop_last()
    } else {
        line
    }
}

/// The lines of a text: what stands before each newline, without a carriage
/// return at its end, and what follows the last newline unless it is empty.
pub open spec fn lines(s: Seq<char>) -> Seq<Seq<char>> {
    let all = pieces(s, '\n');
    let ended = Seq::new((all.len() - 1) as nat, |i: int| without_return(all[i]));
    if all.last().len() == 0 {
        ended
    } else {
        ended.push(all.last())
    }
}

/// `lines`, computed.
pub fn split_lines(s: &str) -> (r: Vec<String>)
    ensures
        texts(r@) == lines(s@),
{
    let all = split(s, '\n');
    proof {
        lemma_pieces_nonempty(s@, '\n');
    }
    let ghost parts = pieces(s@, '\n');
    assert(texts(all@).len() == parts.len());
    let n = all.len() - 1;
    let mut out: Vec<String> = Vec::new();
    let mut i: usize = 0;
    while i < n
        invariant
            i <= n,
            n == all@.len() - 1,
            texts(all@) == parts,
            out@.len() == i,
            forall|j: int| 0 <= j < i ==> (#[trigger] out@[j])@ == without_return(parts[j]),
        decreases n - i,
    {
        let line = all[i].as_str();
        assert(parts[i as int] == line@);
        let m = line.unicode_len();
        if m > 0 && line.get_char(m - 1) == '\r' {
            let cut = line.substring_char(0, m - 1).to_owned();
            assert(cut@ =~= line@.drop_last());
            out.push(cut);
        } else {
            out.push(line.to_owned());
        }
        i += 1;
    }
    let ghost ended = Seq::new((parts.len() - 1) as nat, |i: int| without_return(parts[i]));
    assert(texts(out@) =~= ended);
    assert(parts.last() == all@[n as int]@);
    if !all[n].as_str().is_empty() {
        out.push(all[n].clone());
        assert(texts(out@) =~= ended.push(parts.last()));
    }
    out
}

/// Texts one after the other, each with a newline behind it.
pub open spec fn ended_lines(list: Seq<Seq<char>>) -> Seq<char>
    decreases list.len(),
{
    if list.len() == 0 {
        seq![]
    } else {
        ended_lines(list.drop_last()) + list.last() + seq!['\n']
    }
}

proof fn lemma_pieces_more(s: Seq<char>, line: Seq<char>, sep: char, done: Seq<Seq<char>>)
    requires
        pieces(s, sep) == done.push(seq![]),
        !line.contains(sep),
    ensures
        pieces(s + line, sep) == done.push(line),
    decreases line.len(),
{
    if line.len() == 0 {
        assert(s + line =~= s);
        assert(line =~= seq![]);
    } else {
        let front = line.drop_last();
        assert(!front.contains(sep)) by {
            if front.contains(sep) {
                let i = choose|i: int| 0 <= i < front.len() && front[i] == sep;
                assert(line[i] == sep);
            }
        }
        lemma_pieces_more(s, front, sep, done);
        let whole = s + line;
        assert(whole.drop_last() =~= s + front);
        assert(line[line.len() - 1] == line.last());
        assert(whole.last() == line.last());
        assert(done.push(front).drop_last() =~= done);
        assert(front.push(line.last()) =~= line);
    }
}

/// Lines that hold no break of their own are found again one by one.
pub proof fn lemma_lines_back(list: Seq<Seq<char>>)
    requires
        forall|i: int| 0 <= i < list.len() ==> !(#[trigger] list[i]).contains('\n'),
        forall|i: int| 0 <= i < list.len() ==> !(#[trigger] list[i]).contains('\r'),
    ensures
        lines(ended_lines(list)) == list,
{
    lemma_pieces_back(list);
    let all = pieces(ended_lines(list), '\n');
    let ended = Seq::new((all.len() - 1) as nat, |i: int| without_return(all[i]));
    assert forall|i: int| 0 <= i < list.len() implies #[trigger] ended[i] == list[i] by {
        assert(all[i] == list[i]);
        assert(!list[i].contains('\r'));
        if list[i].len() > 0 && list[i].last() == '\r' {
            assert(list[i][list[i].len() - 1] == '\r');
        }
    }
    assert(ended =~= list);
}

proof fn lemma_pieces_back(list: Seq<Seq<char>>)
    requires
        forall|i: int| 0 <= i < list.len() ==> !(#[trigger] list[i]).contains('\n'),
    ensures
        pieces(ended_lines(list), '\n') == list.push(seq![]),
    decreases list.len(),
{
    if list.len() == 0 {
        assert(pieces(ended_lines(list), '\n') =~= list.push(seq![]));
    } else {
        let front = list.drop_last();
        assert forall|i: int| 0 <= i < front.len() implies !(#[trigger] front[i]).contains(
            '\n',
        ) by {
            assert(!list[i].contains('\n'));
        }
        lemma_pieces_back(front);
        let s = ended_lines(front);
        assert(!list[list.len() - 1].contains('\n'));
        lemma_pieces_more(s, list.last(), '\n', front);
        let whole = s + list.last() + seq!['\n'];
        assert(whole.drop_last() =~= s + list.last());
        assert(whole.last() == '\n');
        assert(front.push(list.last()) =~= list);
    }
}

/// The characters with the Unicode `White_Space` property.
pub open spec fn is_space(c: char) -> bool {
    let n = c as int;
    ||| 9 <= n <= 13
    ||| n == 32
    ||| n == 0x85
    ||| n == 0xa0
    ||| n == 0x1680
    ||| 0x2000 <= n <= 0x200a
    ||| n == 0x2028
    ||| n == 0x2029
    ||| n == 0x202f
    ||| n == 0x205f
    ||| n == 0x3000
}

/// Whether a text holds nothing but white space.
pub open spec fn all_space(s: Seq<char>) -> bool {
    forall|i: int| 0 <= i < s.len() ==> is_space(#[trigger] s[i])
}

/// `all_space`, decided.
pub fn is_blank(s: &str) -> (r: bool)
    ensures
        r == all_space(s@),
{
    let chars = chars_of(s);
    let mut i: usize = 0;
    while i < chars.len()
        invariant
            i <= chars@.len(),
            chars@ == s@,
            forall|j: int| 0 <= j < i ==> is_space(#[trigger] s@[j]),
        decreases chars@.len() - i,
    {
        let c = chars[i];
        let space = ('\u{9}' <= c && c <= '\u{d}') || c == ' ' || c == '\u{85}' || c == '\u{a0}'
            || c == '\u{1680}' || ('\u{2000}' <= c && c <= '\u{200a}') || c == '\u{2028}' || c
            == '\u{2029}' || c == '\u{202f}' || c == '\u{205f}' || c == '\u{3000}';
        assert(space == is_space(s@[i as int]));
        if !space {
            return false;
        }
        i += 1;
    }
    true
}

/// An ASCII capital as its small letter, anything else unchanged.
pub open spec fn lower(c: char) -> char {
    if 'A' as int <= c as int <= 'Z' as int {
        (c as int + 32) as char
    } else {
        c
    }
}

/// Whether two texts differ at most in the case of ASCII letters.
pub open spec fn same_ignoring_case(a: Seq<char>, b: Seq<char>) -> bool {
    a.len() == b.len() && forall|i: int|
        0 <= i < a.len() ==> lower(#[trigger] a[i]) == lower(b[i])
}

/// `lower`, computed.
fn lower_char(c: char) -> (r: u32)
    ensures
        r == lower(c) as u32,
        r as int == lower(c) as int,
{
    let n: u32 = c as u32;
    if 'A' <= c && c <= 'Z' {
        n + 32
    } else {
        n
    }
}

/// `same_ignoring_case`, decided.
pub fn eq_ignore_case(a: &str, b: &str) -> (r: bool)
    ensures
        r == same_ignoring_case(a@, b@),
{
    let x = chars_of(a);
    let y = chars_of(b);
    if x.len() != y.len() {
        return false;
    }
    let mut i: usize = 0;
    while i < x.len()
        invariant
            i <= x@.len(),
            x@ == a@,
            y@ == b@,
            x@.len() == y@.len(),
            forall|j: int| 0 <= j < i ==> lower(#[trigger] a@[j]) == lower(b@[j]),
        decreases x@.len() - i,
    {
        if lower_char(x[i]) != lower_char(y[i]) {
            assert(lower(a@[i as int]) != lower(b@[i as int]));
            return false;
        }
        assert(lower(a@[i as int]) == lower(b@[i as int]));
        i += 1;
    }
    true
}

// ---------------------------------------------------------------------------
// Counting
// ---------------------------------------------------------------------------

/// How often a text is in a list.
pub open spec fn times_in(list: Seq<Seq<char>>, wanted: Seq<char>) -> nat
    decreases list.len(),
{
    if list.len() == 0 {
        0
    } else {
        times_in(list.drop_last(), wanted) + if list.last() == wanted {
            1nat
        } else {
            0nat
        }
    }
}

// ---------------------------------------------------------------------------
// Quoting
// ---------------------------------------------------------------------------

/// Whether a text holds only letters, digits and underscores.
pub open spec fn is_plain(s: Seq<char>) -> bool {
    forall|i: int|
        0 <= i < s.len() ==> {
            let c = #[trigger] s[i];
            ('a' <= c <= 'z') || ('A' <= c <= 'Z') || ('0' <= c <= '9') || c == '_'
        }
}

/// What std's `Debug` prints for a text.
pub uninterp spec fn quoted(s: Seq<char>) -> Seq<char>;

/// std's `Debug` for a text: the text in quotes, with what needs it escaped.
/// Letters, digits and underscores need no escape.
#[verifier::external_body]
pub(crate) fn quote(s: &str) -> (r: String)
    ensures
        r@ == quoted(s@),
        is_plain(s@) ==> r@ == "\""@ + s@ + "\""@,
{
    format!("{:?}", s)
}

} // verus!
