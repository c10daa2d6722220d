//! The JSON value tree: an immutable tagged variant built by a single parse
//! call, plus the object accessors and the renderer back to text.

use vstd::prelude::*;

verus! {

broadcast use vstd::seq::axiom_seq_index_decreases, vstd::seq::axiom_seq_subrange_decreases, vstd::std_specs::vec::axiom_vec_decreases_to_view, vstd::std_specs::vec::axiom_vec_index_decreases;

/// Spec-level mirror of [`Json`]. Numbers split into 64-bit signed integers
/// and floating-point literals carried as their source text; an object is an
/// ordered sequence of key/value pairs with unique keys, last write wins.
pub enum JsonV {
    Int(int),
    Float(Seq<char>),
    Text(Seq<char>),
    List(Seq<JsonV>),
    Object(Seq<(Seq<char>, JsonV)>),
    Bool(bool),
    Null,
    Absent,
}

/// A JSON number: a 64-bit signed integer, or a floating-point literal
/// carried as its decimal source text (digits with a single `.`), so that a
/// caller that needs the numeric value converts the text outside the
/// library.
pub enum JsonNumber {
    Int(i64),
    Float(String),
}

/// A JSON value. `Absent` is a sentinel distinct from `Null`: it stands for
/// "no value here", renders as empty text, and is skipped when an object is
/// rendered.
pub enum Json {
    Number(JsonNumber),
    Text(String),
    List(Vec<Json>),
    Object(JsonObject),
    Bool(bool),
    Null,
    Absent,
}

/// A key-to-value mapping with unique keys kept in insertion order, plus a
/// shared immutable `Absent` sentinel handed out when a key is missing.
pub struct JsonObject {
    /// The key/value pairs, in insertion order; `wf` keeps the keys unique.
    pub entries: Vec<(String, Json)>,
    /// The shared sentinel handed out for missing keys; `wf` keeps it
    /// `Absent`.
    pub absent: Box<Json>,
}

/// The spec-level value of a [`Json`].
pub open spec fn jview(j: Json) -> JsonV
    decreases j,
{
    match j {
        Json::Number(JsonNumber::Int(n)) => JsonV::Int(n as int),
        Json::Number(JsonNumber::Float(t)) => JsonV::Float(t@),
        Json::Text(s) => JsonV::Text(s@),
        Json::List(v) => JsonV::List(jview_list(v@)),
        Json::Object(o) => JsonV::Object(jview_pairs(o.entries@)),
        Json::Bool(b) => JsonV::Bool(b),
        Json::Null => JsonV::Null,
        Json::Absent => JsonV::Absent,
    }
}

/// The spec-level values of a sequence of [`Json`], elementwise.
pub open spec fn jview_list(v: Seq<Json>) -> Seq<JsonV>
    decreases v,
{
    if v.len() == 0 {
        Seq::empty()
    } else {
        seq![jview(v[0])] + jview_list(v.drop_first())
    }
}

/// The spec-level values of a sequence of keyed [`Json`] entries,
/// elementwise.
pub open spec fn jview_pairs(v: Seq<(String, Json)>) -> Seq<(Seq<char>, JsonV)>
    decreases v,
{
    if v.len() == 0 {
        Seq::empty()
    } else {
        seq![(v[0].0@, jview(v[0].1))] + jview_pairs(v.drop_first())
    }
}

/// `jview_list` maps elementwise.
pub broadcast proof fn lemma_jview_list(v: Seq<Json>)
    ensures
        (#[trigger] jview_list(v)).len() == v.len(),
        forall|i: int| 0 <= i < v.len() ==> jview_list(v)[i] == jview(v[i]),
    decreases v.len(),
{
    if v.len() > 0 {
        lemma_jview_list(v.drop_first());
    }
}

/// `jview_pairs` maps elementwise.
pub broadcast proof fn lemma_jview_pairs(v: Seq<(String, Json)>)
    ensures
        (#[trigger] jview_pairs(v)).len() == v.len(),
        forall|i: int|
            0 <= i < v.len() ==> jview_pairs(v)[i] == (v[i].0@, jview(v[i].1)),
    decreases v.len(),
{
    if v.len() > 0 {
        lemma_jview_pairs(v.drop_first());
    }
}

impl View for Json {
    type V = JsonV;

    open spec fn view(&self) -> JsonV {
        jview(*self)
    }
}

/// Deep well-formedness: every object in the tree has unique keys and an
/// intact sentinel.
pub open spec fn json_wf(j: Json) -> bool
    decreases j,
{
    match j {
        Json::List(v) => json_wf_list(v@),
        Json::Object(o) => o.wf() && json_wf_pairs(o.entries@),
        _ => true,
    }
}

/// Deep well-formedness of each element.
pub open spec fn json_wf_list(v: Seq<Json>) -> bool
    decreases v,
{
    v.len() == 0 || (json_wf(v[0]) && json_wf_list(v.drop_first()))
}

/// Deep well-formedness of each entry's value.
pub open spec fn json_wf_pairs(v: Seq<(String, Json)>) -> bool
    decreases v,
{
    v.len() == 0 || (json_wf(v[0].1) && json_wf_pairs(v.drop_first()))
}

/// `json_wf_list` holds exactly when it holds elementwise.
pub broadcast proof fn lemma_json_wf_list(v: Seq<Json>)
    ensures
        #[trigger] json_wf_list(v) <==> (forall|i: int| 0 <= i < v.len() ==> json_wf(v[i])),
    decreases v.len(),
{
    if v.len() > 0 {
        lemma_json_wf_list(v.drop_first());
        if json_wf(v[0]) && json_wf_list(v.drop_first()) {
            assert forall|i: int| 0 <= i < v.len() implies json_wf(v[i]) by {
                if i > 0 {
                    assert(v.drop_first()[i - 1] == v[i]);
                }
            }
        }
    }
}

/// `json_wf_pairs` holds exactly when it holds elementwise.
pub broadcast proof fn lemma_json_wf_pairs(v: Seq<(String, Json)>)
    ensures
        #[trigger] json_wf_pairs(v) <==> (forall|i: int| 0 <= i < v.len() ==> json_wf(v[i].1)),
    decreases v.len(),
{
    if v.len() > 0 {
        lemma_json_wf_pairs(v.drop_first());
        if json_wf(v[0].1) && json_wf_pairs(v.drop_first()) {
            assert forall|i: int| 0 <= i < v.len() implies json_wf(v[i].1) by {
                if i > 0 {
                    assert(v.drop_first()[i - 1] == v[i]);
                }
            }
        }
    }
}

/// The pairs after writing `v` under `k`: the first entry holding `k` is
/// replaced in place, and a fresh key goes to the end — last write wins.
pub open spec fn upsert_pair(
    ps: Seq<(Seq<char>, JsonV)>,
    k: Seq<char>,
    v: JsonV,
) -> Seq<(Seq<char>, JsonV)>
    decreases ps.len(),
{
    if ps.len() == 0 {
        seq![(k, v)]
    } else if ps[0].0 == k {
        seq![(k, v)] + ps.drop_first()
    } else {
        seq![ps[0]] + upsert_pair(ps.drop_first(), k, v)
    }
}

/// When `k` first occurs at `idx`, an upsert replaces that entry in place.
pub proof fn lemma_upsert_found(ps: Seq<(Seq<char>, JsonV)>, k: Seq<char>, v: JsonV, idx: int)
    requires
        0 <= idx < ps.len(),
        ps[idx].0 == k,
        forall|m: int| 0 <= m < idx ==> ps[m].0 != k,
    ensures
        upsert_pair(ps, k, v) == ps.update(idx, (k, v)),
    decreases ps.len(),
{
    if idx == 0 {
        assert(upsert_pair(ps, k, v) =~= ps.update(0, (k, v)));
    } else {
        assert(forall|m: int| 0 <= m < idx - 1 ==> ps.drop_first()[m] == ps[m + 1]);
        lemma_upsert_found(ps.drop_first(), k, v, idx - 1);
        assert(seq![ps[0]] + ps.drop_first().update(idx - 1, (k, v)) =~= ps.update(idx, (k, v)));
    }
}

/// When `k` occurs nowhere, an upsert appends a fresh entry.
pub proof fn lemma_upsert_absent(ps: Seq<(Seq<char>, JsonV)>, k: Seq<char>, v: JsonV)
    requires
        forall|m: int| 0 <= m < ps.len() ==> ps[m].0 != k,
    ensures
        upsert_pair(ps, k, v) == ps.push((k, v)),
    decreases ps.len(),
{
    if ps.len() == 0 {
        assert(upsert_pair(ps, k, v) =~= ps.push((k, v)));
    } else {
        assert(forall|m: int| 0 <= m < ps.drop_first().len() ==> ps.drop_first()[m] == ps[m + 1]);
        lemma_upsert_absent(ps.drop_first(), k, v);
        assert(seq![ps[0]] + ps.drop_first().push((k, v)) =~= ps.push((k, v)));
    }
}

/// Whether the keys of a pair sequence are pairwise distinct.
pub open spec fn keys_unique(ps: Seq<(Seq<char>, JsonV)>) -> bool {
    forall|i: int, j: int| 0 <= i < j < ps.len() ==> ps[i].0 != ps[j].0
}

/// The value stored under the first entry holding `k`, if any.
pub open spec fn spec_lookup(ps: Seq<(Seq<char>, JsonV)>, k: Seq<char>) -> Option<JsonV>
    decreases ps.len(),
{
    if ps.len() == 0 {
        None
    } else if ps[0].0 == k {
        Some(ps[0].1)
    } else {
        spec_lookup(ps.drop_first(), k)
    }
}

/// When `k` first occurs at `idx`, a lookup finds that entry's value.
pub proof fn lemma_lookup_found(ps: Seq<(Seq<char>, JsonV)>, k: Seq<char>, idx: int)
    requires
        0 <= idx < ps.len(),
        ps[idx].0 == k,
        forall|m: int| 0 <= m < idx ==> ps[m].0 != k,
    ensures
        spec_lookup(ps, k) == Some(ps[idx].1),
    decreases ps.len(),
{
    if idx > 0 {
        assert(forall|m: int| 0 <= m < idx - 1 ==> ps.drop_first()[m] == ps[m + 1]);
        lemma_lookup_found(ps.drop_first(), k, idx - 1);
    }
}

/// When `k` occurs nowhere, a lookup finds nothing.
pub proof fn lemma_lookup_absent(ps: Seq<(Seq<char>, JsonV)>, k: Seq<char>)
    requires
        forall|m: int| 0 <= m < ps.len() ==> ps[m].0 != k,
    ensures
        spec_lookup(ps, k) is None,
    decreases ps.len(),
{
    if ps.len() > 0 {
        assert(forall|m: int| 0 <= m < ps.drop_first().len() ==> ps.drop_first()[m] == ps[m + 1]);
        lemma_lookup_absent(ps.drop_first(), k);
    }
}

impl JsonObject {
    /// The ordered key/value pairs this object holds.
    pub open spec fn view(&self) -> Seq<(Seq<char>, JsonV)> {
        jview_pairs(self.entries@)
    }

    /// Well-formed: keys are unique and the sentinel really is `Absent`.
    pub open spec fn wf(&self) -> bool {
        &&& keys_unique(self.view())
        &&& *self.absent == Json::Absent
    }

    /// An empty mapping.
    pub fn new() -> (r: JsonObject)
        ensures
            r.wf(),
            r.view() == Seq::<(Seq<char>, JsonV)>::empty(),
    {
        let r = JsonObject { entries: Vec::new(), absent: Box::new(Json::Absent) };
        proof {
            broadcast use lemma_jview_pairs;

            assert(r.view() =~= Seq::<(Seq<char>, JsonV)>::empty());
        }
        r
    }

    /// Write access: stores `value` under `key`, replacing the first entry
    /// with that key in place or appending a fresh one — last write wins.
    pub fn upsert(&mut self, key: String, value: Json)
        requires
            old(self).wf(),
        ensures
            final(self).wf(),
            final(self)@ == upsert_pair(old(self)@, key@, jview(value)),
            json_wf_pairs(old(self).entries@) && json_wf(value) ==> json_wf_pairs(
                final(self).entries@,
            ),
    {
        proof {
            broadcast use lemma_jview_pairs, lemma_json_wf_pairs;

        }
        let ghost ps = self@;
        let mut idx: usize = 0;
        let mut found = false;
        while !found && idx < self.entries.len()
            invariant
                *self == *old(self),
                idx <= self.entries@.len(),
                forall|m: int| 0 <= m < idx ==> self.entries@[m].0@ != key@,
                found ==> idx < self.entries@.len() && self.entries@[idx as int].0@ == key@,
            decreases self.entries@.len() - idx, (if found { 0int } else { 1int }),
        {
            if self.entries[idx].0 == key {
                found = true;
            } else {
                idx = idx + 1;
            }
        }
        proof {
            assert(forall|m: int| 0 <= m < idx ==> ps[m].0 != key@);
        }
        if found {
            proof {
                assert(ps[idx as int].0 == key@);
                lemma_upsert_found(ps, key@, jview(value), idx as int);
            }
            let ghost entries0 = self.entries@;
            self.entries.remove(idx);
            self.entries.insert(idx, (key, value));
            proof {
                assert(self.entries@ =~= entries0.update(idx as int, self.entries@[idx as int]));
                assert(self@ =~= ps.update(idx as int, (key@, jview(value))));
                assert(keys_unique(self@)) by {
                    assert(forall|m: int|
                        0 <= m < self@.len() ==> self@[m].0 == ps[m].0);
                }
            }
        } else {
            proof {
                assert(forall|m: int| 0 <= m < ps.len() ==> ps[m].0 != key@);
                lemma_upsert_absent(ps, key@, jview(value));
            }
            self.entries.push((key, value));
            proof {
                assert(self@ =~= ps.push((key@, jview(value))));
                assert(keys_unique(self@)) by {
                    assert(forall|m: int|
                        0 <= m < ps.len() ==> self@[m].0 == ps[m].0);
                }
            }
        }
    }

    /// Read access: the value stored under `key`, or a reference to the
    /// shared immutable `Absent` sentinel when the key is missing; the
    /// mapping itself is never touched.
    pub fn index(&self, key: &String) -> (r: &Json)
        requires
            self.wf(),
        ensures
            match spec_lookup(self@, key@) {
                Some(v) => jview(*r) == v,
                None => *r == Json::Absent,
            },
    {
        proof {
            broadcast use lemma_jview_pairs;

        }
        let mut idx: usize = 0;
        while idx < self.entries.len()
            invariant
                self.wf(),
                idx <= self.entries@.len(),
                forall|m: int| 0 <= m < idx ==> self.entries@[m].0@ != key@,
            decreases self.entries@.len() - idx,
        {
            if self.entries[idx].0 == *key {
                proof {
                    lemma_jview_pairs(self.entries@);
                    lemma_lookup_found(self@, key@, idx as int);
                }
                return &self.entries[idx].1;
            }
            idx = idx + 1;
        }
        proof {
            lemma_jview_pairs(self.entries@);
            assert(forall|m: int| 0 <= m < self@.len() ==> self@[m].0 != key@);
            lemma_lookup_absent(self@, key@);
        }
        &self.absent
    }

    /// Non-mutating lookup: the value stored under `key`, if the key is
    /// present.
    pub fn lookup(&self, key: &String) -> (r: Option<&Json>)
        requires
            self.wf(),
        ensures
            match r {
                Some(v) => spec_lookup(self@, key@) == Some(jview(*v)),
                None => spec_lookup(self@, key@) is None,
            },
    {
        proof {
            broadcast use lemma_jview_pairs;

        }
        let mut idx: usize = 0;
        while idx < self.entries.len()
            invariant
                self.wf(),
                idx <= self.entries@.len(),
                forall|m: int| 0 <= m < idx ==> self.entries@[m].0@ != key@,
            decreases self.entries@.len() - idx,
        {
            if self.entries[idx].0 == *key {
                proof {
                    lemma_jview_pairs(self.entries@);
                    lemma_lookup_found(self@, key@, idx as int);
                }
                return Some(&self.entries[idx].1);
            }
            idx = idx + 1;
        }
        proof {
            lemma_jview_pairs(self.entries@);
            assert(forall|m: int| 0 <= m < self@.len() ==> self@[m].0 != key@);
            lemma_lookup_absent(self@, key@);
        }
        None
    }

    /// Builds a mapping from a sequence of key/value pairs, first to last,
    /// a later duplicate key overwriting the earlier value.
    pub fn from_map(val: Vec<(String, Json)>) -> (r: JsonObject)
        ensures
            r.wf(),
            r@ == upsert_all(Seq::empty(), jview_pairs(val@)),
            json_wf_pairs(val@) ==> json_wf_pairs(r.entries@),
    {
        proof {
            broadcast use lemma_jview_pairs, lemma_json_wf_pairs;

        }
        let ghost whole = jview_pairs(val@);
        let mut rest = val;
        let mut obj = JsonObject::new();
        proof {
            assert(json_wf_pairs(obj.entries@));
        }
        while rest.len() > 0
            invariant
                obj.wf(),
                upsert_all(obj@, jview_pairs(rest@)) == upsert_all(Seq::empty(), whole),
                json_wf_pairs(val@) ==> json_wf_pairs(rest@) && json_wf_pairs(obj.entries@),
            decreases rest@.len(),
        {
            let ghost before = jview_pairs(rest@);
            let p = rest.remove(0);
            proof {
                assert(jview_pairs(rest@) =~= before.drop_first());
            }
            obj.upsert(p.0, p.1);
        }
        proof {
            assert(jview_pairs(rest@).len() == 0);
            assert(jview_pairs(rest@) =~= Seq::<(Seq<char>, JsonV)>::empty());
        }
        obj
    }
}

/// The mapping that results from writing each pair of `v` into `acc` in
/// order, a later duplicate key overwriting the earlier value.
pub open spec fn upsert_all(
    acc: Seq<(Seq<char>, JsonV)>,
    v: Seq<(Seq<char>, JsonV)>,
) -> Seq<(Seq<char>, JsonV)>
    decreases v.len(),
{
    if v.len() == 0 {
        acc
    } else {
        upsert_all(upsert_pair(acc, v[0].0, v[0].1), v.drop_first())
    }
}

} // verus!
