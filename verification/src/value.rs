use vstd::prelude::*;
use vstd::seq_lib::*;

use crate::strutil::{chars_lt, lemma_chars_lt_total, str_eq, str_lt};

verus! {

broadcast use {
    vstd::std_specs::vec::axiom_vec_decreases_to_view,
    vstd::seq::axiom_seq_index_decreases,
    vstd::map::axiom_map_index_decreases_finite,
};

/// Mathematical model of a decoded value tree.
pub enum MValue {
    Empty,
    Bool(bool),
    Signed(i64),
    Unsigned(u64),
    Float32(u32),
    Float64(u64),
    Str(Seq<u8>),
    WStr(Seq<u16>),
    Enum(Seq<char>),
    Object { name: Seq<char>, members: Map<Seq<char>, MValue> },
    List(Seq<MValue>),
    Color { b: u8, g: u8, r: u8, a: u8 },
    Vec3 { x: u32, y: u32, z: u32 },
    Quat { x: u32, y: u32, z: u32, w: u32 },
    Euler { pitch: u32, roll: u32, yaw: u32 },
    Mat3x3 { i: (u32, u32, u32), j: (u32, u32, u32), k: (u32, u32, u32) },
    Size { wh: Seq<MValue> },
    Point { xy: Seq<MValue> },
    Rect { inner: Seq<MValue> },
}

/// Whether every object or list nesting level of `v` fits within a
/// recursion budget of `n`.
pub open spec fn depth_le(v: MValue, n: nat) -> bool
    decreases v,
{
    match v {
        MValue::Object { name, members } => n >= 1 && (forall|k: Seq<char>|
            members.dom().contains(k) ==> depth_le(#[trigger] members[k], (n - 1) as nat)),
        MValue::List(items) => n >= 1 && (forall|i: int|
            0 <= i < items.len() ==> depth_le(#[trigger] items[i], (n - 1) as nat)),
        _ => true,
    }
}

/// A decoded value tree. Floating-point payloads carry their
/// little-endian wire bit patterns.
#[derive(Debug, PartialEq)]
pub enum Value {
    Empty,
    Bool(bool),
    Signed(i64),
    Unsigned(u64),
    Float32(u32),
    Float64(u64),
    String(Vec<u8>),
    WString(Vec<u16>),
    Enum(String),
    Object(Object),
    List(List),
    Color { b: u8, g: u8, r: u8, a: u8 },
    Vec3 { x: u32, y: u32, z: u32 },
    Quat { x: u32, y: u32, z: u32, w: u32 },
    Euler { pitch: u32, roll: u32, yaw: u32 },
    Mat3x3 { i: (u32, u32, u32), j: (u32, u32, u32), k: (u32, u32, u32) },
    Size { wh: Box<(Value, Value)> },
    Point { xy: Box<(Value, Value)> },
    Rect { inner: Box<(Value, Value, Value, Value)> },
}

/// An object: a type name and its members, keyed by property name.
#[derive(Debug, PartialEq)]
pub struct Object {
    pub name: String,
    pub inner: Vec<(String, Value)>,
}

/// An ordered sequence of values.
#[derive(Debug, PartialEq)]
pub struct List {
    pub inner: Vec<Value>,
}

/// The member map a sequence of (name, value) pairs stands for;
/// a later pair with the same name wins.
pub open spec fn mpairs_map(s: Seq<(Seq<char>, MValue)>) -> Map<Seq<char>, MValue>
    decreases s.len(),
{
    if s.len() == 0 {
        Map::empty()
    } else {
        mpairs_map(s.drop_last()).insert(s.last().0, s.last().1)
    }
}

/// The model pairs of a sequence of exec members, in order.
pub open spec fn mpairs_of(s: Seq<(String, Value)>) -> Seq<(Seq<char>, MValue)>
    decreases s,
{
    if s.len() == 0 {
        Seq::empty()
    } else {
        mpairs_of(s.drop_last()).push((s.last().0@, s.last().1.mval()))
    }
}

/// The member map of a vector of exec members.
pub open spec fn pairs_map(s: Seq<(String, Value)>) -> Map<Seq<char>, MValue> {
    mpairs_map(mpairs_of(s))
}

/// The models of a sequence of exec values, in order.
pub open spec fn mvals_of(s: Seq<Value>) -> Seq<MValue>
    decreases s,
{
    if s.len() == 0 {
        Seq::empty()
    } else {
        mvals_of(s.drop_last()).push(s.last().mval())
    }
}

impl Value {
    /// The model this value stands for.
    pub open spec fn mval(self) -> MValue
        decreases self,
    {
        match self {
            Value::Empty => MValue::Empty,
            Value::Bool(b) => MValue::Bool(b),
            Value::Signed(v) => MValue::Signed(v),
            Value::Unsigned(v) => MValue::Unsigned(v),
            Value::Float32(v) => MValue::Float32(v),
            Value::Float64(v) => MValue::Float64(v),
            Value::String(v) => MValue::Str(v@),
            Value::WString(v) => MValue::WStr(v@),
            Value::Enum(v) => MValue::Enum(v@),
            Value::Object(o) => MValue::Object {
                name: o.name@,
                members: mpairs_map(mpairs_of(o.inner@)),
            },
            Value::List(l) => MValue::List(mvals_of(l.inner@)),
            Value::Color { b, g, r, a } => MValue::Color { b, g, r, a },
            Value::Vec3 { x, y, z } => MValue::Vec3 { x, y, z },
            Value::Quat { x, y, z, w } => MValue::Quat { x, y, z, w },
            Value::Euler { pitch, roll, yaw } => MValue::Euler { pitch, roll, yaw },
            Value::Mat3x3 { i, j, k } => MValue::Mat3x3 { i, j, k },
            Value::Size { wh } => MValue::Size { wh: seq![wh.0.mval(), wh.1.mval()] },
            Value::Point { xy } => MValue::Point { xy: seq![xy.0.mval(), xy.1.mval()] },
            Value::Rect { inner } => MValue::Rect {
                inner: seq![inner.0.mval(), inner.1.mval(), inner.2.mval(), inner.3.mval()],
            },
        }
    }

    /// Structurally well-formed: member keys of every object are
    /// strictly sorted.
    pub open spec fn swf(self) -> bool
        decreases self,
    {
        match self {
            Value::Object(o) => keys_sorted(o.inner@) && pairs_swf(o.inner@),
            Value::List(l) => vals_swf(l.inner@),
            Value::Size { wh } => wh.0.swf() && wh.1.swf(),
            Value::Point { xy } => xy.0.swf() && xy.1.swf(),
            Value::Rect { inner } => inner.0.swf() && inner.1.swf() && inner.2.swf()
                && inner.3.swf(),
            _ => true,
        }
    }
}

} // verus!

verus! {

/// Whether every value of a sequence is well-formed.
pub open spec fn vals_swf(s: Seq<Value>) -> bool
    decreases s,
{
    if s.len() == 0 {
        true
    } else {
        vals_swf(s.drop_last()) && s.last().swf()
    }
}

/// Whether every member value of a pair sequence is well-formed.
pub open spec fn pairs_swf(s: Seq<(String, Value)>) -> bool
    decreases s,
{
    if s.len() == 0 {
        true
    } else {
        pairs_swf(s.drop_last()) && s.last().1.swf()
    }
}

/// Pair well-formedness is elementwise.
pub proof fn lemma_pairs_swf_index(s: Seq<(String, Value)>)
    ensures
        pairs_swf(s) <==> (forall|i: int| 0 <= i < s.len() ==> (#[trigger] s[i]).1.swf()),
    decreases s.len(),
{
    if s.len() > 0 {
        lemma_pairs_swf_index(s.drop_last());
        assert(forall|i: int| 0 <= i < s.len() - 1 ==> s[i] == s.drop_last()[i]);
    }
}

/// Element well-formedness is elementwise.
pub proof fn lemma_vals_swf_index(s: Seq<Value>)
    ensures
        vals_swf(s) <==> (forall|i: int| 0 <= i < s.len() ==> (#[trigger] s[i]).swf()),
    decreases s.len(),
{
    if s.len() > 0 {
        lemma_vals_swf_index(s.drop_last());
        assert(forall|i: int| 0 <= i < s.len() - 1 ==> s[i] == s.drop_last()[i]);
    }
}

/// The model pairs index pointwise into the exec members.
pub proof fn lemma_mpairs_of_index(s: Seq<(String, Value)>)
    ensures
        mpairs_of(s).len() == s.len(),
        forall|i: int|
            0 <= i < s.len() ==> #[trigger] mpairs_of(s)[i] == (s[i].0@, s[i].1.mval()),
    decreases s.len(),
{
    if s.len() > 0 {
        lemma_mpairs_of_index(s.drop_last());
    }
}

/// Member keys are strictly sorted, so each name occurs once.
pub open spec fn keys_sorted(s: Seq<(String, Value)>) -> bool {
    forall|i: int, j: int| 0 <= i < j < s.len() ==> chars_lt(s[i].0@, s[j].0@)
}

proof fn lemma_mpairs_map_update(t: Seq<(Seq<char>, MValue)>, p: int, k: Seq<char>, v: MValue)
    requires
        0 <= p < t.len(),
        t[p].0 == k,
        forall|j: int| p < j < t.len() ==> t[j].0 != k,
    ensures
        mpairs_map(t.update(p, (k, v))) =~= mpairs_map(t).insert(k, v),
    decreases t.len(),
{
    let t2 = t.update(p, (k, v));
    if p == t.len() - 1 {
        assert(t2.drop_last() =~= t.drop_last());
        assert(t2.last() == (k, v));
        assert(mpairs_map(t.drop_last()).insert(k, t.last().1).insert(k, v) =~= mpairs_map(
            t.drop_last(),
        ).insert(k, v));
    } else {
        let td = t.drop_last();
        let l = t.last();
        assert(t2.drop_last() =~= td.update(p, (k, v)));
        assert(t2.last() == l);
        lemma_mpairs_map_update(td, p, k, v);
        assert(l.0 != k);
        assert(mpairs_map(td).insert(k, v).insert(l.0, l.1) =~= mpairs_map(td).insert(
            l.0,
            l.1,
        ).insert(k, v));
    }
}

proof fn lemma_mpairs_map_insert_at(t: Seq<(Seq<char>, MValue)>, p: int, k: Seq<char>, v: MValue)
    requires
        0 <= p <= t.len(),
        forall|j: int| 0 <= j < t.len() ==> t[j].0 != k,
    ensures
        mpairs_map(t.insert(p, (k, v))) =~= mpairs_map(t).insert(k, v),
    decreases t.len(),
{
    let t2 = t.insert(p, (k, v));
    t.insert_ensures(p, (k, v));
    if p == t.len() {
        assert(t2.drop_last() =~= t);
        assert(t2.last() == (k, v));
    } else {
        let td = t.drop_last();
        let l = t.last();
        assert(t2.last() == l);
        assert(t2.drop_last() =~= td.insert(p, (k, v))) by {
            td.insert_ensures(p, (k, v));
        }
        lemma_mpairs_map_insert_at(td, p, k, v);
        assert(l.0 != k);
        assert(mpairs_map(td).insert(k, v).insert(l.0, l.1) =~= mpairs_map(td).insert(
            l.0,
            l.1,
        ).insert(k, v));
    }
}

/// Places `(name, v)` into a member vector kept sorted by name,
/// replacing an equal key; the member map gains exactly that pair.
pub fn insert_member(members: &mut Vec<(String, Value)>, name: String, v: Value)
    requires
        keys_sorted(old(members)@),
        pairs_swf(old(members)@),
        v.swf(),
    ensures
        keys_sorted(final(members)@),
        pairs_swf(final(members)@),
        pairs_map(final(members)@) =~= pairs_map(old(members)@).insert(name@, v.mval()),
{
    let ghost t0 = members@;
    proof {
        lemma_mpairs_of_index(t0);
        lemma_pairs_swf_index(t0);
    }
    let mut i: usize = 0;
    while i < members.len() && str_lt(members[i].0.as_str(), name.as_str())
        invariant
            0 <= i <= members@.len(),
            members@ == t0,
            forall|j: int| 0 <= j < i ==> chars_lt(t0[j].0@, name@),
        decreases members@.len() - i,
    {
        i = i + 1;
    }
    if i < members.len() && str_eq(members[i].0.as_str(), name.as_str()) {
        proof {
            assert forall|j: int| i < j < t0.len() implies mpairs_of(t0)[j].0 != t0[i as int].0@ by {
                assert(chars_lt(t0[i as int].0@, t0[j].0@));
                lemma_chars_lt_irreflexive(t0[i as int].0@, t0[j].0@);
                assert(mpairs_of(t0)[j].0 == t0[j].0@);
            }
        }
        members[i] = (name, v);
        proof {
            lemma_mpairs_of_index(members@);
            lemma_pairs_swf_index(members@);
            assert(mpairs_of(members@) =~= mpairs_of(t0).update(
                i as int,
                (t0[i as int].0@, v.mval()),
            ));
            lemma_mpairs_map_update(mpairs_of(t0), i as int, t0[i as int].0@, v.mval());
            assert(t0[i as int].0@ == name@);
            assert(keys_sorted(members@)) by {
                assert(forall|a: int, b: int|
                    0 <= a < b < members@.len() ==> members@[a].0@ == t0[a].0@ && members@[b].0@
                        == t0[b].0@);
            }
        }
    } else {
        proof {
            assert forall|j: int| 0 <= j < t0.len() implies t0[j].0@ != name@ by {
                if j < i {
                    lemma_chars_lt_irreflexive(t0[j].0@, name@);
                } else if j == i {
                    lemma_chars_lt_total(t0[j].0@, name@);
                    if t0[j].0@ == name@ {
                        assert(t0[j].0 == name) by {
                            assert(false);
                        }
                    }
                } else {
                    assert(chars_lt(t0[i as int].0@, t0[j].0@));
                    lemma_chars_lt_total(t0[j].0@, name@);
                    if chars_lt(t0[j].0@, name@) {
                        lemma_chars_lt_asymmetric_pair(t0[i as int].0@, t0[j].0@, name@);
                    }
                    lemma_chars_lt_irreflexive(t0[i as int].0@, t0[j].0@);
                }
            }
            assert forall|j: int| i <= j < t0.len() implies !chars_lt(t0[j].0@, name@) by {
                if j == i {
                } else {
                    assert(chars_lt(t0[i as int].0@, t0[j].0@));
                    if chars_lt(t0[j].0@, name@) {
                        lemma_chars_lt_asymmetric_pair(t0[i as int].0@, t0[j].0@, name@);
                    }
                }
            }
        }
        members.insert(i, (name, v));
        proof {
            lemma_mpairs_of_index(members@);
            lemma_pairs_swf_index(members@);
            let mt = mpairs_of(t0);
            mt.insert_ensures(i as int, (name@, v.mval()));
            t0.insert_ensures(i as int, members@[i as int]);
            assert(members@ == t0.insert(i as int, members@[i as int]));
            assert(mpairs_of(members@) =~= mt.insert(i as int, (name@, v.mval())));
            assert(forall|j: int| 0 <= j < mt.len() ==> mt[j].0 != name@);
            lemma_mpairs_map_insert_at(mt, i as int, name@, v.mval());
            assert(keys_sorted(members@)) by {
                assert forall|a: int, b: int|
                    0 <= a < b < members@.len() implies chars_lt(members@[a].0@, members@[b].0@) by {
                    if b < i {
                        assert(members@[a].0@ == t0[a].0@ && members@[b].0@ == t0[b].0@);
                    } else if a > i {
                        assert(members@[a].0@ == t0[a - 1].0@ && members@[b].0@ == t0[b - 1].0@);
                    } else if a < i && b == i {
                        assert(members@[a].0@ == t0[a].0@ && chars_lt(t0[a].0@, name@));
                    } else if a < i && b > i {
                        assert(members@[a].0@ == t0[a].0@ && members@[b].0@ == t0[b - 1].0@);
                        assert(!chars_lt(t0[b - 1].0@, name@) && t0[b - 1].0@ != name@);
                        lemma_chars_lt_total(t0[b - 1].0@, name@);
                        if b - 1 > a {
                            assert(chars_lt(t0[a].0@, t0[b - 1].0@));
                        } else {
                            assert(b - 1 == a);
                            assert(chars_lt(t0[a].0@, name@));
                            lemma_chars_lt_asymmetric_pair(t0[a].0@, name@, t0[b - 1].0@);
                        }
                    } else if a == i {
                        assert(members@[a].0@ == name@ && members@[b].0@ == t0[b - 1].0@);
                        assert(!chars_lt(t0[b - 1].0@, name@) && t0[b - 1].0@ != name@);
                        lemma_chars_lt_total(t0[b - 1].0@, name@);
                    }
                }
            }
        }
    }
}

proof fn lemma_chars_lt_irreflexive(a: Seq<char>, b: Seq<char>)
    requires
        chars_lt(a, b),
    ensures
        a != b,
    decreases a.len(),
{
    if b.len() != 0 && a.len() != 0 && a[0] == b[0] {
        lemma_chars_lt_irreflexive(a.drop_first(), b.drop_first());
    }
}

proof fn lemma_chars_lt_asymmetric_pair(a: Seq<char>, b: Seq<char>, c: Seq<char>)
    requires
        chars_lt(a, b),
        chars_lt(b, c),
    ensures
        chars_lt(a, c),
    decreases a.len() + b.len() + c.len(),
{
    if c.len() == 0 {
    } else if b.len() == 0 {
    } else if a.len() == 0 {
    } else if a[0] == b[0] && b[0] == c[0] {
        lemma_chars_lt_asymmetric_pair(a.drop_first(), b.drop_first(), c.drop_first());
    }
}

} // verus!
