use vstd::prelude::*;

use crate::keys::{key_before, key_less, lemma_key_total, lemma_lex_transitive};
use vstd::utf8::encode_utf8;

verus! {

/// A JSON document. Numbers are held as their decimal text. An object is
/// well-formed when its members are sorted by key, with no key twice (`Json::wf`);
/// `insert` keeps it so, and so does hydration.
#[derive(Debug, PartialEq, Eq)]
pub enum Value {
    Null,
    Bool(bool),
    Number(String),
    String(String),
    Array(Vec<Value>),
    Object(Vec<(String, Value)>),
}

/// The mathematical model of a `Value`.
pub enum Json {
    Null,
    Bool(bool),
    Number(Seq<char>),
    Text(Seq<char>),
    Array(Seq<Json>),
    Object(Seq<(Seq<char>, Json)>),
}

/// The model of a `Value`, with each string read as its characters.
pub open spec fn json_of(v: Value) -> Json
    decreases v,
{
    match v {
        Value::Null => Json::Null,
        Value::Bool(b) => Json::Bool(b),
        Value::Number(n) => Json::Number(n@),
        Value::String(s) => Json::Text(s@),
        Value::Array(a) => Json::Array(
            Seq::new(a@.len(), |i: int| if 0 <= i < a@.len() { json_of(a@[i]) } else { Json::Null }),
        ),
        Value::Object(m) => Json::Object(
            Seq::new(
                m@.len(),
                |i: int|
                    if 0 <= i < m@.len() {
                        (m@[i].0@, json_of(m@[i].1))
                    } else {
                        (Seq::empty(), Json::Null)
                    },
            ),
        ),
    }
}

impl View for Value {
    type V = Json;

    open spec fn view(&self) -> Json {
        json_of(*self)
    }
}

/// The model of a list of object members.
pub open spec fn members_of(m: Seq<(String, Value)>) -> Seq<(Seq<char>, Json)> {
    Seq::new(m.len(), |i: int| (m[i].0@, json_of(m[i].1)))
}

/// Keys strictly increase along the list.
pub open spec fn sorted_keys(m: Seq<(Seq<char>, Json)>) -> bool {
    forall|i: int, j: int| 0 <= i < j < m.len() ==> key_less(#[trigger] m[i].0, #[trigger] m[j].0)
}

impl Json {
    /// Well-formed: every object has its keys strictly increasing, at every depth.
    pub open spec fn wf(self) -> bool
        decreases self,
    {
        match self {
            Json::Array(a) => forall|i: int| 0 <= i < a.len() ==> (#[trigger] a[i]).wf(),
            Json::Object(m) => sorted_keys(m) && forall|i: int|
                0 <= i < m.len() ==> (#[trigger] m[i]).1.wf(),
            _ => true,
        }
    }
}

/// A sorted member list with `key` set to `value`: an existing member of that key
/// is replaced, otherwise the member goes before the first greater key.
pub open spec fn inserted(m: Seq<(Seq<char>, Json)>, key: Seq<char>, value: Json) -> Seq<
    (Seq<char>, Json),
>
    decreases m.len(),
{
    if m.len() == 0 {
        seq![(key, value)]
    } else if m[0].0 == key {
        seq![(key, value)] + m.subrange(1, m.len() as int)
    } else if key_less(m[0].0, key) {
        seq![m[0]] + inserted(m.subrange(1, m.len() as int), key, value)
    } else {
        seq![(key, value)] + m
    }
}

/// The model of an object is the model of its member list.
pub proof fn lemma_object_model(m: Vec<(String, Value)>)
    ensures
        Value::Object(m)@ == Json::Object(members_of(m@)),
{
    assert(Value::Object(m)@->Object_0 =~= members_of(m@));
}

/// Every key of the list sorts after `a`.
pub open spec fn all_above(m: Seq<(Seq<char>, Json)>, a: Seq<char>) -> bool {
    forall|i: int| 0 <= i < m.len() ==> key_less(a, (#[trigger] m[i]).0)
}

/// Every member value of the list is well-formed.
pub open spec fn all_wf(m: Seq<(Seq<char>, Json)>) -> bool {
    forall|i: int| 0 <= i < m.len() ==> (#[trigger] m[i]).1.wf()
}

pub proof fn lemma_object_wf(m: Seq<(Seq<char>, Json)>)
    ensures
        Json::Object(m).wf() == (sorted_keys(m) && all_wf(m)),
{
    let v = Json::Object(m);
    assert(v->Object_0 == m);
}

pub proof fn lemma_cons_sorted(x: (Seq<char>, Json), r: Seq<(Seq<char>, Json)>)
    requires
        sorted_keys(r),
        all_above(r, x.0),
        all_wf(r),
        x.1.wf(),
    ensures
        sorted_keys(seq![x] + r),
        all_wf(seq![x] + r),
{
    let s = seq![x] + r;
    assert forall|i: int, j: int| 0 <= i < j < s.len() implies key_less(
        #[trigger] s[i].0,
        #[trigger] s[j].0,
    ) by {
        assert(s[j] == r[j - 1]);
        if i > 0 {
            assert(s[i] == r[i - 1]);
        }
    }
    assert forall|i: int| 0 <= i < s.len() implies (#[trigger] s[i]).1.wf() by {
        if i > 0 {
            assert(s[i] == r[i - 1]);
        }
    }
}

pub proof fn lemma_tail_facts(m: Seq<(Seq<char>, Json)>)
    requires
        m.len() > 0,
        sorted_keys(m),
        all_wf(m),
    ensures
        sorted_keys(m.subrange(1, m.len() as int)),
        all_wf(m.subrange(1, m.len() as int)),
        all_above(m.subrange(1, m.len() as int), m[0].0),
        m[0].1.wf(),
{
    let t = m.subrange(1, m.len() as int);
    assert forall|i: int, j: int| 0 <= i < j < t.len() implies key_less(
        #[trigger] t[i].0,
        #[trigger] t[j].0,
    ) by {
        assert(t[i] == m[i + 1] && t[j] == m[j + 1]);
    }
    assert forall|i: int| 0 <= i < t.len() implies key_less(m[0].0, (#[trigger] t[i]).0) && t[i].1.wf() by {
        assert(t[i] == m[i + 1]);
    }
}

proof fn lemma_inserted_above(m: Seq<(Seq<char>, Json)>, key: Seq<char>, value: Json, a: Seq<char>)
    requires
        all_above(m, a),
        key_less(a, key),
    ensures
        all_above(inserted(m, key, value), a),
    decreases m.len(),
{
    let r = inserted(m, key, value);
    if m.len() > 0 {
        let t = m.subrange(1, m.len() as int);
        assert(all_above(t, a)) by {
            assert forall|i: int| 0 <= i < t.len() implies key_less(a, (#[trigger] t[i]).0) by {
                assert(t[i] == m[i + 1]);
            }
        }
        if m[0].0 != key && key_less(m[0].0, key) {
            lemma_inserted_above(t, key, value, a);
            assert forall|i: int| 0 <= i < r.len() implies key_less(a, (#[trigger] r[i]).0) by {
                if i > 0 {
                    assert(r[i] == inserted(t, key, value)[i - 1]);
                }
            }
        } else {
            assert forall|i: int| 0 <= i < r.len() implies key_less(a, (#[trigger] r[i]).0) by {
                if i > 0 && m[0].0 == key {
                    assert(r[i] == t[i - 1]);
                } else if i > 0 {
                    assert(r[i] == m[i - 1]);
                }
            }
        }
    }
}

/// Setting a member keeps an object well-formed: keys stay strictly increasing.
pub proof fn lemma_inserted_wf(m: Seq<(Seq<char>, Json)>, key: Seq<char>, value: Json)
    requires
        Json::Object(m).wf(),
        value.wf(),
    ensures
        Json::Object(inserted(m, key, value)).wf(),
    decreases m.len(),
{
    lemma_object_wf(m);
    lemma_object_wf(inserted(m, key, value));
    let e: Seq<(Seq<char>, Json)> = Seq::empty();
    if m.len() == 0 {
        lemma_cons_sorted((key, value), e);
        assert(seq![(key, value)] + e =~= seq![(key, value)]);
    } else {
        let t = m.subrange(1, m.len() as int);
        lemma_tail_facts(m);
        if m[0].0 == key {
            assert(all_above(t, key));
            lemma_cons_sorted((key, value), t);
        } else if key_less(m[0].0, key) {
            lemma_object_wf(t);
            lemma_inserted_wf(t, key, value);
            lemma_object_wf(inserted(t, key, value));
            lemma_inserted_above(t, key, value, m[0].0);
            lemma_cons_sorted(m[0], inserted(t, key, value));
        } else {
            lemma_key_total(m[0].0, key);
            assert forall|i: int| 0 <= i < m.len() implies key_less(key, (#[trigger] m[i]).0) by {
                if i > 0 {
                    assert(key_less(m[0].0, m[i].0));
                    lemma_lex_transitive(encode_utf8(key), encode_utf8(m[0].0), encode_utf8(m[i].0));
                }
            }
            lemma_cons_sorted((key, value), m);
        }
    }
}

impl Value {
    /// Sets member `key` of an object to `value`.
    pub fn insert(&mut self, key: String, value: Value)
        requires
            *old(self) is Object,
        ensures
            (*final(self))@ == Json::Object(inserted(old(self)@->Object_0, key@, value@)),
            old(self)@.wf() && value@.wf() ==> (*final(self))@.wf(),
    {
        let mut cur = Value::Null;
        std::mem::swap(self, &mut cur);
        match cur {
            Value::Object(m) => {
                let mut m = m;
                let ghost g = members_of(m@);
                proof {
                    lemma_object_model(m);
                    assert(g.subrange(0, g.len() as int) =~= g);
                    assert(g.subrange(0, 0) + inserted(g, key@, value@) =~= inserted(g, key@, value@));
                }
                let mut i: usize = 0;
                while i < m.len() && !(m[i].0 == key) && key_before(&m[i].0, &key)
                    invariant
                        i <= m@.len(),
                        g == members_of(m@),
                        inserted(g, key@, value@) == g.subrange(0, i as int) + inserted(
                            g.subrange(i as int, g.len() as int),
                            key@,
                            value@,
                        ),
                    decreases m@.len() - i,
                {
                    let ghost s = g.subrange(i as int, g.len() as int);
                    assert(s.subrange(1, s.len() as int) =~= g.subrange(i + 1, g.len() as int));
                    assert(g.subrange(0, i as int) + seq![s[0]] =~= g.subrange(0, i + 1));
                    i = i + 1;
                }
                let ghost s = g.subrange(i as int, g.len() as int);
                let ghost v = value@;
                if i < m.len() && m[i].0 == key {
                    m.remove(i);
                    m.insert(i, (key, value));
                    assert(members_of(m@) =~= g.subrange(0, i as int) + (seq![(key@, v)] + s.subrange(1, s.len() as int)));
                } else {
                    m.insert(i, (key, value));
                    assert(members_of(m@) =~= g.subrange(0, i as int) + inserted(s, key@, v));
                }
                proof {
                    lemma_object_model(m);
                    if Json::Object(g).wf() && v.wf() {
                        lemma_inserted_wf(g, key@, v);
                    }
                }
                *self = Value::Object(m);
            },
            other => {
                *self = other;
            },
        }
    }
}

/// A copy of a value, made node by node.
pub fn copy_value(v: &Value) -> (r: Value)
    ensures
        r@ == v@,
    decreases v,
{
    match v {
        Value::Null => Value::Null,
        Value::Bool(b) => Value::Bool(*b),
        Value::Number(n) => Value::Number(n.clone()),
        Value::String(s) => Value::String(s.clone()),
        Value::Array(a) => {
            let mut out: Vec<Value> = Vec::new();
            let mut k: usize = 0;
            while k < a.len()
                invariant
                    k <= a@.len(),
                    out@.len() == k,
                    *v == Value::Array(*a),
                    forall|t: int| 0 <= t < k ==> (#[trigger] out@[t])@ == a@[t]@,
                decreases a@.len() - k,
            {
                proof {
                    assert(decreases_to!(*v => v->Array_0));
                    assert(decreases_to!(*a => a@));
                    assert(decreases_to!(a@ => a@[k as int]));
                }
                let c = copy_value(&a[k]);
                out.push(c);
                k = k + 1;
            }
            let r = Value::Array(out);
            assert(r@->Array_0 =~= v@->Array_0);
            r
        },
        Value::Object(m) => {
            let mut out: Vec<(String, Value)> = Vec::new();
            let mut k: usize = 0;
            while k < m.len()
                invariant
                    k <= m@.len(),
                    out@.len() == k,
                    *v == Value::Object(*m),
                    forall|t: int| 0 <= t < k ==> (#[trigger] out@[t]).0@ == m@[t].0@,
                    forall|t: int| 0 <= t < k ==> (#[trigger] out@[t]).1@ == m@[t].1@,
                decreases m@.len() - k,
            {
                proof {
                    assert(decreases_to!(*v => v->Object_0));
                    assert(decreases_to!(*m => m@));
                    assert(decreases_to!(m@ => m@[k as int]));
                    assert(decreases_to!(m@[k as int] => m@[k as int].1));
                }
                let c = copy_value(&m[k].1);
                out.push((m[k].0.clone(), c));
                k = k + 1;
            }
            let r = Value::Object(out);
            assert(r@->Object_0 =~= v@->Object_0);
            r
        },
    }
}

} // verus!
