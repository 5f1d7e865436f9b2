//! The canonical value model and its writer.
use vstd::prelude::*;
use vstd::string::StringExecFns;
use crate::canonical::{decimal_string, decimal_text, json_string, quoted_string};

verus! {

/// A value that has a canonical form: integers are 64-bit signed, and an
/// object's members are held in the order in which they are written.
pub(crate) enum CanonicalValue {
    Null,
    Bool(bool),
    Integer(i64),
    String(String),
    Array(Vec<CanonicalValue>),
    Object(Vec<(String, CanonicalValue)>),
}

/// The text that the writer gives for `c`.
pub(crate) open spec fn text_of(c: CanonicalValue) -> Seq<char>
    decreases c, 0int,
{
    match c {
        CanonicalValue::Null => seq!['n', 'u', 'l', 'l'],
        CanonicalValue::Bool(b) => if b {
            seq!['t', 'r', 'u', 'e']
        } else {
            seq!['f', 'a', 'l', 's', 'e']
        },
        CanonicalValue::Integer(i) => decimal_text(i as int),
        CanonicalValue::String(s) => json_string(s@),
        CanonicalValue::Array(a) => seq!['['] + citems_text(a, a.len() as int) + seq![']'],
        CanonicalValue::Object(m) => seq!['{'] + cmembers_text(m, m.len() as int) + seq!['}'],
    }
}

pub(crate) open spec fn citems_text(a: Vec<CanonicalValue>, n: int) -> Seq<char>
    decreases a, n,
{
    if n <= 0 || n > a.len() {
        seq![]
    } else {
        citems_text(a, n - 1) + (if n > 1 {
            seq![',']
        } else {
            seq![]
        }) + text_of(a[n - 1])
    }
}

pub(crate) open spec fn cmembers_text(m: Vec<(String, CanonicalValue)>, n: int) -> Seq<char>
    decreases m, n,
{
    if n <= 0 || n > m.len() {
        seq![]
    } else {
        cmembers_text(m, n - 1) + (if n > 1 {
            seq![',']
        } else {
            seq![]
        }) + json_string(m[n - 1].0@) + seq![':'] + text_of(m[n - 1].1)
    }
}

/// Appends the JSON string literal for `s` to `out`.
fn write_string(s: &String, out: &mut String)
    ensures
        final(out)@ == old(out)@ + json_string(s@),
{
    match quoted_string(s.as_str()) {
        Some(t) => out.append(t.as_str()),
        // quoting a string never fails
        None => {},
    }
}

impl CanonicalValue {
    /// Appends the canonical text of `self` to `out`.
    pub(crate) fn write(&self, out: &mut String)
        ensures
            final(out)@ == old(out)@ + text_of(*self),
        decreases self,
    {
        proof {
            reveal_strlit("null");
            reveal_strlit("true");
            reveal_strlit("false");
            reveal_strlit("[");
            reveal_strlit("]");
            reveal_strlit("{");
            reveal_strlit("}");
            reveal_strlit(",");
            reveal_strlit(":");
        }
        match self {
            CanonicalValue::Null => out.append("null"),
            CanonicalValue::Bool(b) => if *b {
                out.append("true")
            } else {
                out.append("false")
            },
            CanonicalValue::Integer(n) => {
                let d = decimal_string(*n as i128);
                out.append(d.as_str());
            },
            CanonicalValue::String(s) => write_string(s, out),
            CanonicalValue::Array(a) => {
                let ghost start = out@;
                out.append("[");
                let mut i: usize = 0;
                while i < a.len()
                    invariant
                        0 <= i <= a.len(),
                        out@ == start + seq!['['] + citems_text(*a, i as int),
                        *self == CanonicalValue::Array(*a),
                    decreases a.len() - i,
                {
                    let ghost before = out@;
                    proof {
                        reveal_strlit(",");
                    }
                    if i > 0 {
                        out.append(",");
                    }
                    let ghost sep = out@.subrange(before.len() as int, out@.len() as int);
                    assert(out@ =~= before + sep);
                    assert(sep =~= (if i > 0 { seq![','] } else { seq![] }));
                    proof {
                        assert(decreases_to!(*self => (*self)->Array_0));
                        assert(decreases_to!(*a => a[i as int]));
                        assert(decreases_to!(*self => a[i as int]));
                    }
                    a[i].write(out);
                    i = i + 1;
                    assert(out@ =~= start + seq!['['] + citems_text(*a, i as int));
                }
                out.append("]");
            },
            CanonicalValue::Object(m) => {
                let ghost start = out@;
                out.append("{");
                let mut i: usize = 0;
                while i < m.len()
                    invariant
                        0 <= i <= m.len(),
                        out@ == start + seq!['{'] + cmembers_text(*m, i as int),
                        *self == CanonicalValue::Object(*m),
                    decreases m.len() - i,
                {
                    let ghost before = out@;
                    proof {
                        reveal_strlit(",");
                        reveal_strlit(":");
                    }
                    if i > 0 {
                        out.append(",");
                    }
                    let ghost sep = out@.subrange(before.len() as int, out@.len() as int);
                    assert(out@ =~= before + sep);
                    assert(sep =~= (if i > 0 { seq![','] } else { seq![] }));
                    write_string(&m[i].0, out);
                    out.append(":");
                    proof {
                        assert(decreases_to!(*self => (*self)->Object_0));
                        assert(decreases_to!(*m => m[i as int]));
                        assert(decreases_to!(m[i as int] => m[i as int].1));
                        assert(decreases_to!(*self => m[i as int].1));
                    }
                    m[i].1.write(out);
                    i = i + 1;
                    assert(out@ =~= start + seq!['{'] + cmembers_text(*m, i as int));
                }
                out.append("}");
            },
        }
    }
}

} // verus!
