//! Rendering a JSON value tree back to text: integers and floats in their
//! decimal form, strings wrapped in quotes with no re-escaping, lists
//! comma-joined in brackets, objects comma-joined `"key" : value` pairs in
//! braces with `Absent` members skipped, and `Absent` itself as empty text.

use vstd::prelude::*;

use crate::json::{jview_pairs, lemma_jview_list, lemma_jview_pairs, Json, JsonNumber, JsonObject,
    JsonV};
use crate::num::{dec_str_signed, render_i64};
use crate::strings::chars_to_string;

verus! {

broadcast use vstd::seq::axiom_seq_index_decreases, vstd::seq::axiom_seq_subrange_decreases, vstd::std_specs::vec::axiom_vec_decreases_to_view, vstd::std_specs::vec::axiom_vec_index_decreases;

/// The text of one object member: `"key" : value`.
pub open spec fn member_text(p: (Seq<char>, JsonV)) -> Seq<char>
    decreases p.1,
{
    seq!['"'] + p.0 + seq!['"', ' ', ':', ' '] + spec_render(p.1)
}

/// The text of the members of an object, skipping `Absent` values, with
/// `, ` before every rendered member but the first; `first` records
/// whether no member has been rendered yet.
pub open spec fn render_members(ps: Seq<(Seq<char>, JsonV)>, first: bool) -> Seq<char>
    decreases ps, 1int,
{
    if ps.len() == 0 {
        Seq::empty()
    } else if ps[0].1 is Absent {
        render_members(ps.drop_first(), first)
    } else {
        (if first {
            Seq::empty()
        } else {
            seq![',', ' ']
        }) + member_text(ps[0]) + render_members(ps.drop_first(), false)
    }
}

/// The text of the elements of a list, with `, ` before every element but
/// the first.
pub open spec fn render_elems(vs: Seq<JsonV>, first: bool) -> Seq<char>
    decreases vs, 1int,
{
    if vs.len() == 0 {
        Seq::empty()
    } else {
        (if first {
            Seq::empty()
        } else {
            seq![',', ' ']
        }) + spec_render(vs[0]) + render_elems(vs.drop_first(), false)
    }
}

/// The text a JSON value renders to.
pub open spec fn spec_render(v: JsonV) -> Seq<char>
    decreases v, 2int,
{
    match v {
        JsonV::Int(n) => dec_str_signed(n),
        JsonV::Float(t) => t,
        JsonV::Text(s) => seq!['"'] + s + seq!['"'],
        JsonV::List(vs) => seq!['['] + render_elems(vs, true) + seq![']'],
        JsonV::Object(ps) => seq!['{', ' '] + render_members(ps, true) + seq![' ', '}'],
        JsonV::Bool(b) => if b {
            seq!['t', 'r', 'u', 'e']
        } else {
            seq!['f', 'a', 'l', 's', 'e']
        },
        JsonV::Null => seq!['n', 'u', 'l', 'l'],
        JsonV::Absent => Seq::empty(),
    }
}

/// Appends every character of `v` to `out`.
pub fn append_chars(out: &mut Vec<char>, v: &Vec<char>)
    ensures
        final(out)@ == old(out)@ + v@,
{
    let mut k: usize = 0;
    while k < v.len()
        invariant
            k <= v@.len(),
            out@ == old(out)@ + v@.take(k as int),
        decreases v@.len() - k,
    {
        out.push(v[k]);
        proof {
            assert(out@ =~= old(out)@ + v@.take(k + 1));
        }
        k = k + 1;
    }
    proof {
        assert(old(out)@ + v@.take(v@.len() as int) =~= old(out)@ + v@);
    }
}

/// Appends every character of `s` to `out`.
pub fn append_str(out: &mut Vec<char>, s: &str)
    ensures
        final(out)@ == old(out)@ + s@,
{
    let n = s.unicode_len();
    let mut k: usize = 0;
    while k < n
        invariant
            n == s@.len(),
            k <= n,
            out@ == old(out)@ + s@.take(k as int),
        decreases n - k,
    {
        out.push(s.get_char(k));
        proof {
            assert(out@ =~= old(out)@ + s@.take(k + 1));
        }
        k = k + 1;
    }
    proof {
        assert(old(out)@ + s@.take(s@.len() as int) =~= old(out)@ + s@);
    }
}

/// Appends the rendering of `j` to `out`.
#[verifier::loop_isolation(false)]
pub fn render_chars(j: &Json, out: &mut Vec<char>)
    ensures
        final(out)@ == old(out)@ + spec_render(jview(*j)),
    decreases *j,
{
    match j {
        Json::Number(JsonNumber::Int(n)) => {
            let d = render_i64(*n);
            append_chars(out, &d);
        },
        Json::Number(JsonNumber::Float(t)) => {
            append_str(out, t.as_str());
        },
        Json::Text(s) => {
            out.push('"');
            append_str(out, s.as_str());
            out.push('"');
            proof {
                assert(out@ =~= old(out)@ + spec_render(jview(*j)));
            }
        },
        Json::Bool(b) => {
            if *b {
                append_str(out, "true");
                proof {
                    reveal_strlit("true");
                    assert(out@ =~= old(out)@ + spec_render(jview(*j)));
                }
            } else {
                append_str(out, "false");
                proof {
                    reveal_strlit("false");
                    assert(out@ =~= old(out)@ + spec_render(jview(*j)));
                }
            }
        },
        Json::Null => {
            append_str(out, "null");
            proof {
                reveal_strlit("null");
                assert(out@ =~= old(out)@ + spec_render(jview(*j)));
            }
        },
        Json::Absent => {
            proof {
                assert(out@ =~= old(out)@ + spec_render(jview(*j)));
            }
        },
        Json::List(v) => {
            let ghost vs = crate::json::jview_list(v@);
            proof {
                lemma_jview_list(v@);
            }
            out.push('[');
            let ghost base = out@;
            proof {
                assert(vs.skip(0) =~= vs);
            }
            let mut i: usize = 0;
            while i < v.len()
                invariant
                    i <= v@.len(),
                    vs == crate::json::jview_list(v@),
                    vs.len() == v@.len(),
                    forall|m: int| 0 <= m < v@.len() ==> vs[m] == jview(v@[m]),
                    base + render_elems(vs, true) == out@ + render_elems(
                        vs.skip(i as int),
                        i == 0,
                    ),
                decreases v@.len() - i,
            {
                let ghost out0 = out@;
                if i > 0 {
                    append_str(out, ", ");
                    proof {
                        reveal_strlit(", ");
                        assert(out@ =~= out0 + seq![',', ' ']);
                    }
                }
                proof {
                    assert(decreases_to!(*j => v@[i as int]));
                }
                render_chars(&v[i], out);
                proof {
                    assert(vs.skip(i as int).drop_first() =~= vs.skip(i + 1));
                    assert(vs.skip(i as int)[0] == vs[i as int]);
                    assert(base + render_elems(vs, true) == out@ + render_elems(
                        vs.skip(i + 1),
                        false,
                    )) by {
                        if i == 0 {
                            assert(render_elems(vs.skip(0), true) == spec_render(vs[0])
                                + render_elems(vs.skip(1), false)) by {
                                assert(Seq::<char>::empty() + spec_render(vs[0]) =~= spec_render(
                                    vs[0],
                                ));
                            }
                            assert(out@ =~= out0 + spec_render(vs[0]));
                        } else {
                            assert(out@ =~= out0 + seq![',', ' '] + spec_render(vs[i as int]));
                        }
                    }
                }
                i = i + 1;
            }
            proof {
                assert(vs.skip(v@.len() as int) =~= Seq::<JsonV>::empty());
                if v@.len() == 0 {
                    assert(render_elems(vs, true) =~= Seq::<char>::empty());
                }
            }
            out.push(']');
            proof {
                assert(out@ =~= old(out)@ + spec_render(jview(*j)));
            }
        },
        Json::Object(o) => {
            let ghost ps = jview_pairs(o.entries@);
            proof {
                lemma_jview_pairs(o.entries@);
            }
            append_str(out, "{ ");
            proof {
                reveal_strlit("{ ");
            }
            let ghost base = out@;
            proof {
                assert(base =~= old(out)@ + seq!['{', ' ']);
                assert(ps.skip(0) =~= ps);
            }
            let mut seen = false;
            let mut i: usize = 0;
            while i < o.entries.len()
                invariant
                    i <= o.entries@.len(),
                    ps == jview_pairs(o.entries@),
                    ps.len() == o.entries@.len(),
                    forall|m: int|
                        0 <= m < o.entries@.len() ==> ps[m] == (
                            o.entries@[m].0@,
                            jview(o.entries@[m].1),
                        ),
                    base + render_members(ps, true) == out@ + render_members(
                        ps.skip(i as int),
                        !seen,
                    ),
                decreases o.entries@.len() - i,
            {
                let ghost out0 = out@;
                let entry = &o.entries[i];
                proof {
                    assert(ps.skip(i as int).drop_first() =~= ps.skip(i + 1));
                    assert(ps.skip(i as int)[0] == ps[i as int]);
                }
                if matches!(&entry.1, Json::Absent) {
                    proof {
                        assert(ps[i as int].1 is Absent);
                    }
                } else {
                    if seen {
                        append_str(out, ", ");
                        proof {
                            reveal_strlit(", ");
                            assert(out@ =~= out0 + seq![',', ' ']);
                        }
                    }
                    let ghost out1 = out@;
                    out.push('"');
                    append_str(out, entry.0.as_str());
                    append_str(out, "\" : ");
                    proof {
                        reveal_strlit("\" : ");
                        assert(out@ =~= out1 + seq!['"'] + entry.0@ + seq!['"', ' ', ':', ' ']);
                    }
                    proof {
                        assert(decreases_to!(*j => o.entries@[i as int].1));
                    }
                    render_chars(&entry.1, out);
                    proof {
                        assert(out@ =~= out1 + member_text(ps[i as int]));
                        if seen {
                            assert(out@ =~= out0 + (seq![',', ' '] + member_text(ps[i as int])));
                        } else {
                            assert(out@ =~= out0 + (Seq::<char>::empty() + member_text(
                                ps[i as int],
                            )));
                        }
                    }
                    seen = true;
                }
                i = i + 1;
            }
            proof {
                assert(ps.skip(o.entries@.len() as int) =~= Seq::<(Seq<char>, JsonV)>::empty());
            }
            append_str(out, " }");
            proof {
                reveal_strlit(" }");
                assert(out@ =~= old(out)@ + spec_render(jview(*j)));
            }
        },
    }
}

use crate::json::jview;

impl Json {
    /// Renders this value to text, exactly as `spec_render` says.
    pub fn to_text(&self) -> (r: String)
        ensures
            r@ == spec_render(self@),
    {
        let mut out: Vec<char> = Vec::new();
        render_chars(self, &mut out);
        proof {
            assert(Seq::<char>::empty() + spec_render(self@) =~= spec_render(self@));
        }
        chars_to_string(&out)
    }
}

impl JsonNumber {
    /// Renders this number to its decimal text.
    pub fn to_text(&self) -> (r: String)
        ensures
            self matches JsonNumber::Int(n) ==> r@ == dec_str_signed(*n as int),
            self matches JsonNumber::Float(t) ==> r@ == t@,
    {
        match self {
            JsonNumber::Int(n) => {
                let d = render_i64(*n);
                chars_to_string(&d)
            },
            JsonNumber::Float(t) => t.clone(),
        }
    }
}

impl JsonObject {
    /// Renders this mapping as an object in braces, skipping `Absent`
    /// members.
    pub fn to_text(&self) -> (r: String)
        ensures
            r@ == spec_render(JsonV::Object(self@)),
    {
        let mut out: Vec<char> = Vec::new();
        render_object_chars(self, &mut out);
        proof {
            assert(Seq::<char>::empty() + spec_render(JsonV::Object(self@)) =~= spec_render(
                JsonV::Object(self@),
            ));
        }
        chars_to_string(&out)
    }
}

/// Appends the rendering of an object to `out`.
#[verifier::loop_isolation(false)]
fn render_object_chars(o: &JsonObject, out: &mut Vec<char>)
    ensures
        final(out)@ == old(out)@ + spec_render(JsonV::Object(o@)),
{
    let ghost ps = o@;
    proof {
        lemma_jview_pairs(o.entries@);
    }
    append_str(out, "{ ");
    proof {
        reveal_strlit("{ ");
    }
    let ghost base = out@;
    proof {
        assert(base =~= old(out)@ + seq!['{', ' ']);
        assert(ps.skip(0) =~= ps);
    }
    let mut seen = false;
    let mut i: usize = 0;
    while i < o.entries.len()
        invariant
            i <= o.entries@.len(),
            ps == jview_pairs(o.entries@),
            ps.len() == o.entries@.len(),
            forall|m: int|
                0 <= m < o.entries@.len() ==> ps[m] == (
                    o.entries@[m].0@,
                    jview(o.entries@[m].1),
                ),
            base + render_members(ps, true) == out@ + render_members(ps.skip(i as int), !seen),
        decreases o.entries@.len() - i,
    {
        let ghost out0 = out@;
        let entry = &o.entries[i];
        proof {
            assert(ps.skip(i as int).drop_first() =~= ps.skip(i + 1));
            assert(ps.skip(i as int)[0] == ps[i as int]);
        }
        if matches!(&entry.1, Json::Absent) {
            proof {
                assert(ps[i as int].1 is Absent);
            }
        } else {
            if seen {
                append_str(out, ", ");
                proof {
                    reveal_strlit(", ");
                    assert(out@ =~= out0 + seq![',', ' ']);
                }
            }
            let ghost out1 = out@;
            out.push('"');
            append_str(out, entry.0.as_str());
            append_str(out, "\" : ");
            proof {
                reveal_strlit("\" : ");
                assert(out@ =~= out1 + seq!['"'] + entry.0@ + seq!['"', ' ', ':', ' ']);
            }
            render_chars(&entry.1, out);
            proof {
                assert(out@ =~= out1 + member_text(ps[i as int]));
                if seen {
                    assert(out@ =~= out0 + (seq![',', ' '] + member_text(ps[i as int])));
                } else {
                    assert(out@ =~= out0 + (Seq::<char>::empty() + member_text(ps[i as int])));
                }
            }
            seen = true;
        }
        i = i + 1;
    }
    proof {
        assert(ps.skip(o.entries@.len() as int) =~= Seq::<(Seq<char>, JsonV)>::empty());
    }
    append_str(out, " }");
    proof {
        reveal_strlit(" }");
        assert(out@ =~= old(out)@ + spec_render(JsonV::Object(o@)));
    }
}

} // verus!
