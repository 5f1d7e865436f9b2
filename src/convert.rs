//! The converter: from a generic JSON value to a canonical value.
use vstd::prelude::*;
use vstd::string::StringExecFns;
use crate::canonical::{
    canonical_text, decimal_string, first_unsupported, first_unsupported_item,
    first_unsupported_member, items_text, key_insert, last_index, lemma_key_insert_at,
    lemma_sorted_keys, members_text, number_text, sorted_keys,
};
use crate::order::{key_less, key_lt, lemma_key_lt_irreflexive};
use crate::value::{Error, JsonValue, Number};
use crate::writer::{citems_text, cmembers_text, text_of, CanonicalValue};

verus! {

/// The text of the error for a number without a canonical form.
pub open spec fn unsupported_message(n: Number) -> Seq<char> {
    "unsupported value in canonical JSON: "@ + number_text(n)
}

/// The error for a number without a canonical form.
fn unsupported(n: &Number) -> (e: Error)
    ensures
        e is Custom,
        e->Custom_0@ == unsupported_message(*n),
{
    let t = match n {
        Number::PosInt(u) => decimal_string(*u as i128),
        Number::NegInt(i) => decimal_string(*i as i128),
        Number::Float(s) => s.clone(),
    };
    let mut m = String::from_str("unsupported value in canonical JSON: ");
    m.append(t.as_str());
    Error::Custom(m)
}

proof fn lemma_citems_prefix(a: Vec<CanonicalValue>, b: Vec<CanonicalValue>, n: int)
    requires
        0 <= n <= a.len(),
        n <= b.len(),
        forall|j: int| 0 <= j < n ==> a[j] == b[j],
    ensures
        citems_text(a, n) == citems_text(b, n),
    decreases n,
{
    if n > 0 {
        lemma_citems_prefix(a, b, n - 1);
    }
}

/// The member `c` stands for the last member of `s` with its key.
spec fn member_agrees(c: (String, CanonicalValue), s: Seq<(String, JsonValue)>) -> bool {
    let li = last_index(s, c.0@);
    0 <= li < s.len() && text_of(c.1) == canonical_text(s[li].1)
}

proof fn lemma_agrees_extend(c: (String, CanonicalValue), s: Seq<(String, JsonValue)>, t: Seq<(String, JsonValue)>)
    requires
        t.len() > 0,
        t.drop_last() == s,
        c.0@ != t.last().0@,
        member_agrees(c, s),
    ensures
        member_agrees(c, t),
{
    assert(t[last_index(s, c.0@)] == s[last_index(s, c.0@)]);
}

proof fn lemma_cmembers_match(m: Vec<(String, CanonicalValue)>, o: Vec<(String, JsonValue)>, n: int)
    requires
        0 <= n <= m.len(),
        m.len() == sorted_keys(o@).len(),
        forall|j: int| 0 <= j < m.len() ==> #[trigger] m[j].0@ == sorted_keys(o@)[j],
        forall|j: int| 0 <= j < m.len() ==> member_agrees(#[trigger] m[j], o@),
    ensures
        cmembers_text(m, n) == members_text(o, sorted_keys(o@), n),
    decreases n,
{
    if n > 0 {
        lemma_cmembers_match(m, o, n - 1);
        assert(m[n - 1].0@ == sorted_keys(o@)[n - 1]);
        assert(member_agrees(m[n - 1], o@));
    }
}

/// Converts a generic JSON value to its canonical value, failing on the
/// first number (in document order) that is not a 64-bit signed integer.
/// Every member's value of an object is converted; where a key occurs more
/// than once, the last member wins.
pub(crate) fn from_value(v: &JsonValue) -> (r: Result<CanonicalValue, Error>)
    ensures
        r is Ok <==> first_unsupported(*v) is None,
        r is Ok ==> text_of(r->Ok_0) == canonical_text(*v),
        r is Err ==> r->Err_0 is Custom && r->Err_0->Custom_0@ == unsupported_message(
            first_unsupported(*v)->Some_0,
        ),
    decreases v,
{
    match v {
        JsonValue::Null => Ok(CanonicalValue::Null),
        JsonValue::Bool(b) => Ok(CanonicalValue::Bool(*b)),
        JsonValue::Number(n) => match n.as_i64() {
            Some(i) => Ok(CanonicalValue::Integer(i)),
            None => Err(unsupported(n)),
        },
        JsonValue::String(s) => Ok(CanonicalValue::String(s.clone())),
        JsonValue::Array(a) => {
            let mut out: Vec<CanonicalValue> = Vec::new();
            let mut i: usize = 0;
            while i < a.len()
                invariant
                    0 <= i <= a.len(),
                    out.len() == i,
                    *v == JsonValue::Array(*a),
                    first_unsupported_item(*a, 0) == first_unsupported_item(*a, i as int),
                    citems_text(out, i as int) == items_text(*a, i as int),
                decreases a.len() - i,
            {
                proof {
                    assert(decreases_to!(*v => (*v)->Array_0));
                    assert(decreases_to!(*a => a[i as int]));
                }
                match from_value(&a[i]) {
                    Ok(c) => {
                        let ghost old_out = out;
                        out.push(c);
                        proof {
                            lemma_citems_prefix(old_out, out, i as int);
                        }
                    },
                    Err(e) => {
                        return Err(e);
                    },
                }
                i = i + 1;
            }
            Ok(CanonicalValue::Array(out))
        },
        JsonValue::Object(o) => {
            let mut out: Vec<(String, CanonicalValue)> = Vec::new();
            let mut i: usize = 0;
            assert(o@.subrange(0, 0) =~= Seq::<(String, JsonValue)>::empty());
            while i < o.len()
                invariant
                    0 <= i <= o.len(),
                    *v == JsonValue::Object(*o),
                    first_unsupported_member(*o, 0) == first_unsupported_member(*o, i as int),
                    out@.len() == sorted_keys(o@.subrange(0, i as int)).len(),
                    forall|j: int|
                        0 <= j < out@.len() ==> #[trigger] out@[j].0@ == sorted_keys(
                            o@.subrange(0, i as int),
                        )[j],
                    forall|j: int|
                        0 <= j < out@.len() ==> member_agrees(#[trigger] out@[j], o@.subrange(0, i as int)),
                decreases o.len() - i,
            {
                proof {
                    assert(decreases_to!(*v => (*v)->Object_0));
                    assert(decreases_to!(*o => o[i as int]));
                    assert(decreases_to!(o[i as int] => o[i as int].1));
                }
                let c = match from_value(&o[i].1) {
                    Ok(c) => c,
                    Err(e) => {
                        return Err(e);
                    },
                };
                let k = &o[i].0;
                let ghost pre = o@.subrange(0, i as int);
                let ghost post = o@.subrange(0, i + 1);
                let ghost ks = sorted_keys(pre);
                let mut p: usize = 0;
                while p < out.len() && key_less(&out[p].0, k)
                    invariant
                        0 <= p <= out@.len(),
                        out@.len() == ks.len(),
                        forall|j: int| 0 <= j < out@.len() ==> #[trigger] out@[j].0@ == ks[j],
                        forall|q: int| 0 <= q < p ==> key_lt(#[trigger] ks[q], k@),
                    decreases out.len() - p,
                {
                    p = p + 1;
                }
                proof {
                    assert(post.drop_last() =~= pre);
                    assert(post.last() == o@[i as int]);
                    lemma_key_insert_at(ks, k@, p as int);
                    lemma_sorted_keys(pre);
                    lemma_sorted_keys(post);
                }
                let ghost old_out = out@;
                if p < out.len() && out[p].0 == *k {
                    out.set(p, (k.clone(), c));
                    proof {
                        assert forall|j: int| 0 <= j < out@.len() implies member_agrees(#[trigger] out@[j], post) by {
                            if j != p {
                                assert(old_out[j].0@ != k@) by {
                                    if j < p {
                                        lemma_key_lt_irreflexive(k@);
                                    } else {
                                        assert(ks.contains(ks[j]));
                                    }
                                }
                                lemma_agrees_extend(old_out[j], pre, post);
                            }
                        }
                        assert(forall|j: int| 0 <= j < out@.len() ==> #[trigger] out@[j].0@ == sorted_keys(post)[j]);
                    }
                } else {
                    out.insert(p, (k.clone(), c));
                    proof {
                        assert forall|j: int| 0 <= j < out@.len() implies member_agrees(#[trigger] out@[j], post) by {
                            if j < p {
                                assert(out@[j] == old_out[j]);
                                lemma_key_lt_irreflexive(k@);
                                lemma_agrees_extend(old_out[j], pre, post);
                            } else if j > p {
                                assert(out@[j] == old_out[j - 1]);
                                assert(sorted_keys(post)[j] == ks[j - 1]);
                                assert(sorted_keys(post)[p as int] == k@);
                                lemma_agrees_extend(old_out[j - 1], pre, post);
                            }
                        }
                        assert forall|j: int| 0 <= j < out@.len() implies #[trigger] out@[j].0@ == sorted_keys(post)[j] by {
                            if j < p {
                                assert(out@[j] == old_out[j]);
                            } else if j > p {
                                assert(out@[j] == old_out[j - 1]);
                            }
                        }
                    }
                }
                i = i + 1;
            }
            proof {
                assert(o@.subrange(0, o@.len() as int) =~= o@);
                lemma_cmembers_match(out, *o, out.len() as int);
            }
            Ok(CanonicalValue::Object(out))
        },
    }
}

} // verus!
