//! Laws of canonical JSON, proved over the canonical text.
use vstd::prelude::*;
use crate::canonical::{
    first_unsupported, first_unsupported_member, canonical_text, has_key, items_text, last_index, lemma_sorted_keys, members_text, sorted_keys,
};
use crate::order::{key_lt, keys_sorted, lemma_key_lt_irreflexive, lemma_key_lt_transitive};
use crate::value::{number_as_i64, JsonValue};

verus! {

/// No two members of `o` have the same key.
pub open spec fn distinct_keys(o: Seq<(String, JsonValue)>) -> bool {
    forall|i: int, j: int| 0 <= i < j < o.len() ==> (#[trigger] o[i]).0@ != (#[trigger] o[j]).0@
}

/// Two sorted key lists with the same keys are the same list.
proof fn lemma_sorted_unique(a: Seq<Seq<char>>, b: Seq<Seq<char>>)
    requires
        keys_sorted(a),
        keys_sorted(b),
        forall|x: Seq<char>| a.contains(x) <==> b.contains(x),
    ensures
        a == b,
    decreases a.len(),
{
    if a.len() == 0 {
        if b.len() > 0 {
            assert(b.contains(b[0]));
        }
        assert(a =~= b);
    } else {
        assert(a.contains(a[0]));
        assert(b.len() > 0);
        assert(b.contains(b[0]));
        if a[0] != b[0] {
            let i = choose|i: int| 0 <= i < a.len() && a[i] == b[0];
            let j = choose|j: int| 0 <= j < b.len() && b[j] == a[0];
            assert(key_lt(a[0], a[i]));
            assert(key_lt(b[0], b[j]));
            lemma_key_lt_transitive(a[0], b[0], a[0]);
            lemma_key_lt_irreflexive(a[0]);
        }
        let ra = a.drop_first();
        let rb = b.drop_first();
        assert forall|x: Seq<char>| ra.contains(x) <==> rb.contains(x) by {
            if ra.contains(x) {
                let i = choose|i: int| 0 <= i < ra.len() && ra[i] == x;
                assert(a[i + 1] == x);
                assert(a.contains(x));
                let j = choose|j: int| 0 <= j < b.len() && b[j] == x;
                if j == 0 {
                    assert(key_lt(a[0], a[i + 1]));
                    lemma_key_lt_irreflexive(x);
                }
                assert(rb[j - 1] == x);
            }
            if rb.contains(x) {
                let j = choose|j: int| 0 <= j < rb.len() && rb[j] == x;
                assert(b[j + 1] == x);
                assert(b.contains(x));
                let i = choose|i: int| 0 <= i < a.len() && a[i] == x;
                if i == 0 {
                    assert(key_lt(b[0], b[j + 1]));
                    lemma_key_lt_irreflexive(x);
                }
                assert(ra[i - 1] == x);
            }
        }
        assert(keys_sorted(ra));
        assert(keys_sorted(rb));
        lemma_sorted_unique(ra, rb);
        assert(a =~= seq![a[0]] + ra);
        assert(b =~= seq![b[0]] + rb);
    }
}

/// With distinct keys, the last member with a key is the only one.
proof fn lemma_last_index_distinct(s: Seq<(String, JsonValue)>, j: int)
    requires
        distinct_keys(s),
        0 <= j < s.len(),
    ensures
        last_index(s, s[j].0@) == j,
    decreases s.len(),
{
    if j < s.len() - 1 {
        let init = s.drop_last();
        assert(s[j] == init[j]);
        assert(s.last() == s[s.len() - 1]);
        lemma_last_index_distinct(init, j);
    }
}

proof fn lemma_members_text_same(
    o1: Vec<(String, JsonValue)>,
    o2: Vec<(String, JsonValue)>,
    ks: Seq<Seq<char>>,
    n: int,
)
    requires
        distinct_keys(o1@),
        distinct_keys(o2@),
        forall|m: (String, JsonValue)| o1@.contains(m) <==> o2@.contains(m),
        forall|q: int| 0 <= q < ks.len() ==> has_key(o1@, #[trigger] ks[q]),
    ensures
        members_text(o1, ks, n) == members_text(o2, ks, n),
    decreases n,
{
    if 0 < n <= ks.len() {
        lemma_members_text_same(o1, o2, ks, n - 1);
        let k = ks[n - 1];
        assert(has_key(o1@, k));
        let i = choose|i: int| 0 <= i < o1@.len() && #[trigger] o1@[i].0@ == k;
        lemma_last_index_distinct(o1@, i);
        assert(o1@.contains(o1@[i]));
        let j = choose|j: int| 0 <= j < o2@.len() && o2@[j] == o1@[i];
        lemma_last_index_distinct(o2@, j);
    }
}

/// An object converts exactly when the value of each of its members does.
proof fn lemma_members_convert(o: Vec<(String, JsonValue)>, i: int)
    requires
        0 <= i <= o.len(),
    ensures
        first_unsupported_member(o, i) is None <==> forall|j: int|
            i <= j < o.len() ==> (first_unsupported(#[trigger] o@[j].1) is None),
    decreases o.len() - i,
{
    if i < o.len() {
        lemma_members_convert(o, i + 1);
    }
}

/// Key-order independence: reordering the members of an object whose keys
/// are distinct leaves its canonical text unchanged.
pub proof fn law_key_order_independence(o1: Vec<(String, JsonValue)>, o2: Vec<(String, JsonValue)>)
    requires
        distinct_keys(o1@),
        distinct_keys(o2@),
        o1@.to_multiset() == o2@.to_multiset(),
    ensures
        canonical_text(JsonValue::Object(o1)) == canonical_text(JsonValue::Object(o2)),
        first_unsupported(JsonValue::Object(o1)) is None <==> first_unsupported(
            JsonValue::Object(o2),
        ) is None,
{
    o1@.to_multiset_ensures();
    o2@.to_multiset_ensures();
    assert forall|m: (String, JsonValue)| o1@.contains(m) <==> o2@.contains(m) by {
        assert(o1@.contains(m) <==> o1@.to_multiset().count(m) > 0);
        assert(o2@.contains(m) <==> o2@.to_multiset().count(m) > 0);
    }
    lemma_sorted_keys(o1@);
    lemma_sorted_keys(o2@);
    assert forall|x: Seq<char>| has_key(o1@, x) <==> has_key(o2@, x) by {
        if has_key(o1@, x) {
            let i = choose|i: int| 0 <= i < o1@.len() && #[trigger] o1@[i].0@ == x;
            assert(o1@.contains(o1@[i]));
            let j = choose|j: int| 0 <= j < o2@.len() && o2@[j] == o1@[i];
            assert(o2@[j].0@ == x);
        }
        if has_key(o2@, x) {
            let j = choose|j: int| 0 <= j < o2@.len() && #[trigger] o2@[j].0@ == x;
            assert(o2@.contains(o2@[j]));
            let i = choose|i: int| 0 <= i < o1@.len() && o1@[i] == o2@[j];
            assert(o1@[i].0@ == x);
        }
    }
    let ks = sorted_keys(o1@);
    assert forall|x: Seq<char>| ks.contains(x) <==> sorted_keys(o2@).contains(x) by {}
    lemma_sorted_unique(ks, sorted_keys(o2@));
    assert forall|q: int| 0 <= q < ks.len() implies has_key(o1@, #[trigger] ks[q]) by {
        assert(ks.contains(ks[q]));
    }
    lemma_members_text_same(o1, o2, ks, ks.len() as int);
    lemma_members_convert(o1, 0);
    lemma_members_convert(o2, 0);
    assert forall|j: int| 0 <= j < o1@.len() && first_unsupported(#[trigger] o1@[j].1) is Some implies exists|i: int|
        0 <= i < o2@.len() && first_unsupported(#[trigger] o2@[i].1) is Some by {
        assert(o1@.contains(o1@[j]));
    }
    assert forall|j: int| 0 <= j < o2@.len() && first_unsupported(#[trigger] o2@[j].1) is Some implies exists|i: int|
        0 <= i < o1@.len() && first_unsupported(#[trigger] o1@[i].1) is Some by {
        assert(o2@.contains(o2@[j]));
    }
}

/// The keys of an object in canonical text: every key of the object once,
/// in strictly ascending byte order of its UTF-8 encoding; an object whose
/// keys already stand in that order keeps its order.
pub proof fn law_object_key_order(o: Vec<(String, JsonValue)>)
    ensures
        keys_sorted(sorted_keys(o@)),
        forall|x: Seq<char>| #[trigger] sorted_keys(o@).contains(x) <==> has_key(o@, x),
        keys_sorted(o@.map_values(|m: (String, JsonValue)| m.0@)) ==> sorted_keys(o@) == o@.map_values(
            |m: (String, JsonValue)| m.0@,
        ),
{
    lemma_sorted_keys(o@);
    let ks = o@.map_values(|m: (String, JsonValue)| m.0@);
    if keys_sorted(ks) {
        assert forall|x: Seq<char>| ks.contains(x) <==> has_key(o@, x) by {
            if ks.contains(x) {
                let i = choose|i: int| 0 <= i < ks.len() && ks[i] == x;
                assert(o@[i].0@ == x);
            }
            if has_key(o@, x) {
                let i = choose|i: int| 0 <= i < o@.len() && #[trigger] o@[i].0@ == x;
                assert(ks[i] == x);
            }
        }
        lemma_sorted_unique(sorted_keys(o@), ks);
    }
}

/// `w` is the value that the canonical text of `v` stands for: the same
/// literals, strings and integers, arrays item by item, and for an object
/// each key once, in canonical key order, with the last value given for it.
/// This is what a JSON parser reads back from the canonical text of `v`.
pub open spec fn denotes(w: JsonValue, v: JsonValue) -> bool
    decreases w,
{
    match w {
        JsonValue::Null => v is Null,
        JsonValue::Bool(b) => v is Bool && v->Bool_0 == b,
        JsonValue::Number(m) => v is Number && number_as_i64(v->Number_0) is Some && number_as_i64(m)
            == number_as_i64(v->Number_0),
        JsonValue::String(s) => v is String && v->String_0@ == s@,
        JsonValue::Array(x) => match v {
            JsonValue::Array(y) => x.len() == y.len() && forall|i: int|
                0 <= i < x.len() ==> denotes(#[trigger] x[i], y[i]),
            _ => false,
        },
        JsonValue::Object(x) => match v {
            JsonValue::Object(y) => x.len() == sorted_keys(y@).len() && forall|i: int|
                0 <= i < x.len() ==> {
                    let li = last_index(y@, (#[trigger] x[i]).0@);
                    &&& x[i].0@ == sorted_keys(y@)[i]
                    &&& 0 <= li < y.len()
                    &&& denotes(x[i].1, y[li].1)
                },
            _ => false,
        },
    }
}

proof fn lemma_items_denote(x: Vec<JsonValue>, y: Vec<JsonValue>, n: int)
    requires
        x.len() == y.len(),
        forall|i: int| 0 <= i < x.len() ==> denotes(#[trigger] x[i], y[i]),
    ensures
        items_text(x, n) == items_text(y, n),
    decreases x, n,
{
    if 0 < n <= x.len() {
        lemma_items_denote(x, y, n - 1);
        assert(decreases_to!(x => x[n - 1]));
        law_idempotence(x[n - 1], y[n - 1]);
    }
}

proof fn lemma_members_denote(x: Vec<(String, JsonValue)>, y: Vec<(String, JsonValue)>, n: int)
    requires
        x.len() == sorted_keys(y@).len(),
        sorted_keys(x@) == sorted_keys(y@),
        distinct_keys(x@),
        forall|i: int|
            0 <= i < x.len() ==> {
                let li = last_index(y@, (#[trigger] x[i]).0@);
                &&& x[i].0@ == sorted_keys(y@)[i]
                &&& 0 <= li < y.len()
                &&& denotes(x[i].1, y[li].1)
            },
    ensures
        members_text(x, sorted_keys(x@), n) == members_text(y, sorted_keys(y@), n),
    decreases x, n,
{
    if 0 < n <= x.len() {
        lemma_members_denote(x, y, n - 1);
        let i = n - 1;
        lemma_last_index_distinct(x@, i);
        assert(x[i].0@ == sorted_keys(y@)[i]);
        assert(decreases_to!(x => x[i]));
        assert(decreases_to!(x[i] => x[i].1));
        law_idempotence(x[i].1, y[last_index(y@, x[i].0@)].1);
    }
}

/// Idempotence: the value that the canonical text of `v` stands for has
/// the same canonical text as `v`, so canonicalizing it again gives the
/// same bytes.
pub proof fn law_idempotence(w: JsonValue, v: JsonValue)
    requires
        denotes(w, v),
    ensures
        canonical_text(w) == canonical_text(v),
    decreases w, 0int,
{
    match w {
        JsonValue::Array(x) => {
            let y = v->Array_0;
            lemma_items_denote(x, y, x.len() as int);
        },
        JsonValue::Object(x) => {
            let y = v->Object_0;
            let ks = x@.map_values(|m: (String, JsonValue)| m.0@);
            assert(ks =~= sorted_keys(y@)) by {
                assert forall|i: int| 0 <= i < ks.len() implies ks[i] == sorted_keys(y@)[i] by {
                    assert(x@[i] == x[i]);
                }
            }
            lemma_sorted_keys(y@);
            law_object_key_order(x);
            assert forall|i: int, j: int| 0 <= i < j < x@.len() implies (#[trigger] x@[i]).0@ != (
            #[trigger] x@[j]).0@ by {
                assert(ks[i] == x@[i].0@ && ks[j] == x@[j].0@);
                lemma_key_lt_irreflexive(ks[i]);
            }
            lemma_members_denote(x, y, ks.len() as int);
        },
        _ => {},
    }
}

} // verus!
