//! What the canonical text of a generic JSON value is, and the outside
//! formatters that produce the text of its numbers and strings.
use vstd::prelude::*;
use crate::order::{
    key_lt, keys_sorted, lemma_key_lt_irreflexive, lemma_key_lt_total, lemma_key_lt_transitive,
};
use crate::value::{number_as_i64, JsonValue, Number};

verus! {

/// The decimal digit or lower-case hexadecimal digit for `d` (below 16).
pub open spec fn digit_char(d: nat) -> char {
    if d < 10 {
        ((48 + d) as u8) as char
    } else {
        ((87 + d) as u8) as char
    }
}

/// The decimal digits of `n`, without leading zeros.
pub open spec fn nat_digits(n: nat) -> Seq<char>
    decreases n,
{
    if n < 10 {
        seq![digit_char(n)]
    } else {
        nat_digits(n / 10) + seq![digit_char(n % 10)]
    }
}

/// The minimal decimal form of `n`: a `-` only when negative, no leading
/// zeros, no `+`.
pub open spec fn decimal_text(n: int) -> Seq<char> {
    if n < 0 {
        seq!['-'] + nat_digits((-n) as nat)
    } else {
        nat_digits(n as nat)
    }
}

/// How one character stands inside a JSON string literal: `"` and `\` are
/// escaped with a backslash, the control characters with a short escape
/// where JSON has one and as `\u00xx` otherwise; every other character
/// stands for itself.
pub open spec fn escaped_char(c: char) -> Seq<char> {
    if c == '"' {
        seq!['\\', '"']
    } else if c == '\\' {
        seq!['\\', '\\']
    } else if c == '\u{8}' {
        seq!['\\', 'b']
    } else if c == '\t' {
        seq!['\\', 't']
    } else if c == '\n' {
        seq!['\\', 'n']
    } else if c == '\u{c}' {
        seq!['\\', 'f']
    } else if c == '\r' {
        seq!['\\', 'r']
    } else if (c as u32) < 0x20 {
        seq!['\\', 'u', '0', '0', digit_char((c as u32 / 16) as nat), digit_char((c as u32 % 16) as nat)]
    } else {
        seq![c]
    }
}

pub open spec fn escaped_text(s: Seq<char>) -> Seq<char>
    decreases s.len(),
{
    if s.len() == 0 {
        seq![]
    } else {
        escaped_text(s.drop_last()) + escaped_char(s.last())
    }
}

/// The JSON string literal for `s`.
pub open spec fn json_string(s: Seq<char>) -> Seq<char> {
    seq!['"'] + escaped_text(s) + seq!['"']
}

/// Relies on `itoa::Buffer::format`: the minimal decimal form of an integer.
#[verifier::external_body]
pub(crate) fn decimal_string(n: i128) -> (r: String)
    ensures
        r@ == decimal_text(n as int),
{
    itoa::Buffer::new().format(n).to_string()
}

/// Relies on `serde_json::to_string` on a `str`: the JSON string literal
/// that serde_json's default formatter writes (escape table and `\u00xx`
/// with lower-case digits). Writing a string into memory cannot fail.
#[verifier::external_body]
pub(crate) fn quoted_string(s: &str) -> (r: Option<String>)
    ensures
        r is Some,
        r->Some_0@ == json_string(s@),
{
    serde_json::to_string(s).ok()
}

/// `ks` with the key `k` added in its place; `ks` unchanged if it holds `k`.
pub open spec fn key_insert(ks: Seq<Seq<char>>, k: Seq<char>) -> Seq<Seq<char>>
    decreases ks.len(),
{
    if ks.len() == 0 {
        seq![k]
    } else if key_lt(ks[0], k) {
        seq![ks[0]] + key_insert(ks.drop_first(), k)
    } else if ks[0] == k {
        ks
    } else {
        seq![k] + ks
    }
}

/// Adding a key keeps the keys sorted, and adds exactly that key.
pub proof fn lemma_key_insert(ks: Seq<Seq<char>>, k: Seq<char>)
    requires
        keys_sorted(ks),
    ensures
        keys_sorted(key_insert(ks, k)),
        forall|x: Seq<char>| #[trigger] key_insert(ks, k).contains(x) <==> (x == k || ks.contains(x)),
    decreases ks.len(),
{
    let r = key_insert(ks, k);
    if ks.len() == 0 {
        assert(r =~= seq![k]);
        assert(r[0] == k);
    } else if key_lt(ks[0], k) {
        let rest = ks.drop_first();
        lemma_key_insert(rest, k);
        let ri = key_insert(rest, k);
        assert(r =~= seq![ks[0]] + ri);
        assert forall|x: Seq<char>| r.contains(x) <==> (x == k || ks.contains(x)) by {
            if r.contains(x) {
                let j = choose|j: int| 0 <= j < r.len() && r[j] == x;
                if j == 0 {
                    assert(ks[0] == x);
                } else {
                    assert(ri[j - 1] == x);
                    assert(ri.contains(x));
                    if x != k {
                        assert(rest.contains(x));
                        let q = choose|q: int| 0 <= q < rest.len() && rest[q] == x;
                        assert(ks[q + 1] == x);
                    }
                }
            }
            if x == k || ks.contains(x) {
                if x != k && ks[0] == x {
                    assert(r[0] == x);
                } else {
                    if x != k {
                        let q = choose|q: int| 0 <= q < ks.len() && ks[q] == x;
                        assert(rest[q - 1] == x);
                        assert(rest.contains(x));
                    }
                    assert(ri.contains(x));
                    let j = choose|j: int| 0 <= j < ri.len() && ri[j] == x;
                    assert(r[j + 1] == x);
                }
            }
        }
        assert forall|i: int, j: int| 0 <= i < j < r.len() implies key_lt(#[trigger] r[i], #[trigger] r[j]) by {
            if i == 0 {
                assert(r[j] == ri[j - 1]);
                assert(ri.contains(r[j]));
                if r[j] != k {
                    assert(rest.contains(r[j]));
                    let q = choose|q: int| 0 <= q < rest.len() && rest[q] == r[j];
                    assert(rest[q] == ks[q + 1]);
                }
            } else {
                assert(r[i] == ri[i - 1] && r[j] == ri[j - 1]);
            }
        }
    } else if ks[0] == k {
        assert(ks.contains(k));
    } else {
        lemma_key_lt_total(ks[0], k);
        assert(r =~= seq![k] + ks);
        assert forall|i: int, j: int| 0 <= i < j < r.len() implies key_lt(#[trigger] r[i], #[trigger] r[j]) by {
            if i == 0 {
                if j > 1 {
                    lemma_key_lt_transitive(k, ks[0], ks[j - 1]);
                }
            } else {
                assert(r[i] == ks[i - 1] && r[j] == ks[j - 1]);
            }
        }
        assert forall|x: Seq<char>| r.contains(x) <==> (x == k || ks.contains(x)) by {
            if r.contains(x) && x != k {
                let j = choose|j: int| 0 <= j < r.len() && r[j] == x;
                assert(ks[j - 1] == x);
            }
            if ks.contains(x) {
                let j = choose|j: int| 0 <= j < ks.len() && ks[j] == x;
                assert(r[j + 1] == x);
            }
            assert(r[0] == k);
        }
    }
}

/// Where the scan for the first key not below `k` stops, `key_insert` adds
/// `k` (or finds it already there).
pub proof fn lemma_key_insert_at(ks: Seq<Seq<char>>, k: Seq<char>, p: int)
    requires
        0 <= p <= ks.len(),
        forall|q: int| 0 <= q < p ==> key_lt(#[trigger] ks[q], k),
        p == ks.len() || !key_lt(ks[p], k),
    ensures
        key_insert(ks, k) == (if p < ks.len() && ks[p] == k {
            ks
        } else {
            ks.insert(p, k)
        }),
    decreases ks.len(),
{
    if ks.len() == 0 {
        assert(ks.insert(p, k) =~= seq![k]);
    } else if p > 0 {
        let rest = ks.drop_first();
        assert(key_lt(ks[0], k));
        assert forall|q: int| 0 <= q < p - 1 implies key_lt(#[trigger] rest[q], k) by {
            assert(rest[q] == ks[q + 1]);
        }
        lemma_key_insert_at(rest, k, p - 1);
        assert(ks =~= seq![ks[0]] + rest);
        assert(ks.insert(p, k) =~= seq![ks[0]] + rest.insert(p - 1, k));
    } else {
        assert(ks.insert(0, k) =~= seq![k] + ks);
    }
}

/// The distinct keys of the members `o`, in canonical key order.
pub open spec fn sorted_keys(o: Seq<(String, JsonValue)>) -> Seq<Seq<char>>
    decreases o.len(),
{
    if o.len() == 0 {
        seq![]
    } else {
        key_insert(sorted_keys(o.drop_last()), o.last().0@)
    }
}

/// Some member of `o` has the key `k`.
pub open spec fn has_key(o: Seq<(String, JsonValue)>, k: Seq<char>) -> bool {
    exists|i: int| 0 <= i < o.len() && #[trigger] o[i].0@ == k
}

/// `sorted_keys(o)` is in strictly ascending key order and holds exactly the
/// keys of `o`.
pub proof fn lemma_sorted_keys(o: Seq<(String, JsonValue)>)
    ensures
        keys_sorted(sorted_keys(o)),
        forall|x: Seq<char>| #[trigger] sorted_keys(o).contains(x) <==> has_key(o, x),
    decreases o.len(),
{
    if o.len() > 0 {
        let init = o.drop_last();
        lemma_sorted_keys(init);
        lemma_key_insert(sorted_keys(init), o.last().0@);
        assert forall|x: Seq<char>| #[trigger] sorted_keys(o).contains(x) <==> has_key(o, x) by {
            if has_key(o, x) {
                let i = choose|i: int| 0 <= i < o.len() && #[trigger] o[i].0@ == x;
                if i < o.len() - 1 {
                    assert(init[i].0@ == x);
                }
            }
            if has_key(init, x) {
                let i = choose|i: int| 0 <= i < init.len() && #[trigger] init[i].0@ == x;
                assert(o[i].0@ == x);
            }
            assert(o[o.len() - 1].0@ == o.last().0@);
        }
    }
}

/// The index of the last member of `o` with key `k`, or -1 if none has it.
pub open spec fn last_index(o: Seq<(String, JsonValue)>, k: Seq<char>) -> int
    decreases o.len(),
{
    if o.len() == 0 {
        -1
    } else if o.last().0@ == k {
        o.len() - 1
    } else {
        last_index(o.drop_last(), k)
    }
}

/// The canonical text of a generic JSON value: no whitespace, integers in
/// minimal decimal form, array items in their order, and for an object the
/// last value given for each key, keys in canonical key order.
pub open spec fn canonical_text(v: JsonValue) -> Seq<char>
    decreases v, 0int,
{
    match v {
        JsonValue::Null => seq!['n', 'u', 'l', 'l'],
        JsonValue::Bool(b) => if b {
            seq!['t', 'r', 'u', 'e']
        } else {
            seq!['f', 'a', 'l', 's', 'e']
        },
        JsonValue::Number(n) => match number_as_i64(n) {
            Some(i) => decimal_text(i as int),
            None => seq![],
        },
        JsonValue::String(s) => json_string(s@),
        JsonValue::Array(a) => seq!['['] + items_text(a, a.len() as int) + seq![']'],
        JsonValue::Object(o) => seq!['{'] + members_text(o, sorted_keys(o@), sorted_keys(o@).len() as int)
            + seq!['}'],
    }
}

/// The canonical texts of the first `n` items of `a`, separated by commas.
pub open spec fn items_text(a: Vec<JsonValue>, n: int) -> Seq<char>
    decreases a, n,
{
    if n <= 0 || n > a.len() {
        seq![]
    } else {
        items_text(a, n - 1) + (if n > 1 {
            seq![',']
        } else {
            seq![]
        }) + canonical_text(a[n - 1])
    }
}

/// The `"key":value` texts of the first `n` keys of `ks`, separated by
/// commas, each with the last value given for it in `o`.
pub open spec fn members_text(o: Vec<(String, JsonValue)>, ks: Seq<Seq<char>>, n: int) -> Seq<char>
    decreases o, n,
{
    if n <= 0 || n > ks.len() {
        seq![]
    } else {
        let li = last_index(o@, ks[n - 1]);
        members_text(o, ks, n - 1) + (if n > 1 {
            seq![',']
        } else {
            seq![]
        }) + json_string(ks[n - 1]) + seq![':'] + (if 0 <= li < o.len() {
            canonical_text(o[li].1)
        } else {
            seq![]
        })
    }
}

/// The textual form of a number, as a JSON formatter writes it.
pub open spec fn number_text(n: Number) -> Seq<char> {
    match n {
        Number::PosInt(u) => decimal_text(u as int),
        Number::NegInt(i) => decimal_text(i as int),
        Number::Float(s) => s@,
    }
}

/// The first number, in document order, that is not a 64-bit signed integer.
pub open spec fn first_unsupported(v: JsonValue) -> Option<Number>
    decreases v, 0int,
{
    match v {
        JsonValue::Number(n) => if number_as_i64(n) is Some {
            None
        } else {
            Some(n)
        },
        JsonValue::Array(a) => first_unsupported_item(a, 0),
        JsonValue::Object(o) => first_unsupported_member(o, 0),
        _ => None,
    }
}

pub open spec fn first_unsupported_item(a: Vec<JsonValue>, i: int) -> Option<Number>
    decreases a, a.len() - i,
{
    if 0 <= i < a.len() {
        match first_unsupported(a[i]) {
            Some(n) => Some(n),
            None => first_unsupported_item(a, i + 1),
        }
    } else {
        None
    }
}

pub open spec fn first_unsupported_member(o: Vec<(String, JsonValue)>, i: int) -> Option<Number>
    decreases o, o.len() - i,
{
    if 0 <= i < o.len() {
        match first_unsupported(o[i].1) {
            Some(n) => Some(n),
            None => first_unsupported_member(o, i + 1),
        }
    } else {
        None
    }
}

} // verus!
