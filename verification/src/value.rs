//! The JSON value type that queries are evaluated against, together with
//! its mathematical model.

use vstd::prelude::*;

verus! {

/// A JSON document, held as an owned tree of plain values.
///
/// An object is an ordered list of key/value members; the order is the
/// order in which the members were written or inserted, and is preserved
/// when the value is re-emitted.
#[derive(Debug, PartialEq)]
pub enum Value {
    Null,
    Bool(bool),
    /// A JSON number that fits a signed 64-bit integer.
    Int(i64),
    /// Any other JSON number, held as its literal decimal text and
    /// carried through evaluation unchanged.
    Num(String),
    Str(String),
    Array(Vec<Value>),
    Object(Vec<(String, Value)>),
}

/// The mathematical model of a [`Value`]: the same tree over `int`,
/// `Seq<char>` and `Seq`, which contracts and proofs speak about.
#[verifier::ext_equal]
pub enum ValueModel {
    Null,
    Bool(bool),
    Int(int),
    Num(Seq<char>),
    Str(Seq<char>),
    Array(Seq<ValueModel>),
    Object(Seq<(Seq<char>, ValueModel)>),
}

impl View for Value {
    type V = ValueModel;

    open spec fn view(&self) -> ValueModel
        decreases self,
    {
        match self {
            Value::Null => ValueModel::Null,
            Value::Bool(b) => ValueModel::Bool(*b),
            Value::Int(i) => ValueModel::Int(*i as int),
            Value::Num(t) => ValueModel::Num(t@),
            Value::Str(s) => ValueModel::Str(s@),
            Value::Array(a) => ValueModel::Array(elements_view(a@)),
            Value::Object(m) => ValueModel::Object(members_view(m@)),
        }
    }
}

/// The models of the elements of a JSON array, in order.
pub open spec fn elements_view(a: Seq<Value>) -> Seq<ValueModel>
    decreases a,
{
    if a.len() == 0 {
        Seq::empty()
    } else {
        seq![a[0]@] + elements_view(a.subrange(1, a.len() as int))
    }
}

/// The models of the members of a JSON object, in order.
pub open spec fn members_view(m: Seq<(String, Value)>) -> Seq<(Seq<char>, ValueModel)>
    decreases m,
{
    if m.len() == 0 {
        Seq::empty()
    } else {
        seq![(m[0].0@, m[0].1@)] + members_view(m.subrange(1, m.len() as int))
    }
}

pub broadcast proof fn lemma_elements_view_len(a: Seq<Value>)
    ensures
        #[trigger] elements_view(a).len() == a.len(),
    decreases a,
{
    if a.len() > 0 {
        lemma_elements_view_len(a.subrange(1, a.len() as int));
        assert(elements_view(a) == seq![a[0]@] + elements_view(a.subrange(1, a.len() as int)));
        assert(elements_view(a).len() == 1 + elements_view(a.subrange(1, a.len() as int)).len());
    } else {
        assert(elements_view(a) == Seq::<ValueModel>::empty());
    }
}

pub broadcast proof fn lemma_elements_view_index(a: Seq<Value>, i: int)
    requires
        0 <= i < a.len(),
    ensures
        #[trigger] elements_view(a)[i] == a[i]@,
    decreases a,
{
    let tail = a.subrange(1, a.len() as int);
    assert(elements_view(a) == seq![a[0]@] + elements_view(tail));
    if i > 0 {
        lemma_elements_view_len(tail);
        lemma_elements_view_index(tail, i - 1);
        assert(tail[i - 1] == a[i]);
        assert((seq![a[0]@] + elements_view(tail))[i] == elements_view(tail)[i - 1]);
    } else {
        assert((seq![a[0]@] + elements_view(tail))[0] == seq![a[0]@][0]);
    }
}

pub broadcast proof fn lemma_members_view_len(m: Seq<(String, Value)>)
    ensures
        #[trigger] members_view(m).len() == m.len(),
    decreases m,
{
    if m.len() > 0 {
        let tail = m.subrange(1, m.len() as int);
        lemma_members_view_len(tail);
        assert(members_view(m) == seq![(m[0].0@, m[0].1@)] + members_view(tail));
        assert(members_view(m).len() == 1 + members_view(tail).len());
    } else {
        assert(members_view(m) == Seq::<(Seq<char>, ValueModel)>::empty());
    }
}

pub broadcast proof fn lemma_members_view_index(m: Seq<(String, Value)>, i: int)
    requires
        0 <= i < m.len(),
    ensures
        #[trigger] members_view(m)[i] == (m[i].0@, m[i].1@),
    decreases m,
{
    let tail = m.subrange(1, m.len() as int);
    assert(members_view(m) == seq![(m[0].0@, m[0].1@)] + members_view(tail));
    if i > 0 {
        lemma_members_view_len(tail);
        lemma_members_view_index(tail, i - 1);
        assert(tail[i - 1] == m[i]);
        assert((seq![(m[0].0@, m[0].1@)] + members_view(tail))[i] == members_view(tail)[i - 1]);
    } else {
        assert((seq![(m[0].0@, m[0].1@)] + members_view(tail))[0] == seq![(m[0].0@, m[0].1@)][0]);
    }
}

impl Value {
    /// A structural copy: the copy has the same model as the value it
    /// copies.
    pub fn duplicate(&self) -> (r: Value)
        ensures
            r@ == self@,
        decreases *self,
    {
        broadcast use lemma_elements_view_len, lemma_elements_view_index, lemma_members_view_len, lemma_members_view_index;

        match self {
            Value::Null => Value::Null,
            Value::Bool(b) => Value::Bool(*b),
            Value::Int(i) => Value::Int(*i),
            Value::Num(t) => Value::Num(t.clone()),
            Value::Str(s) => Value::Str(s.clone()),
            Value::Array(a) => {
                let mut out: Vec<Value> = Vec::new();
                let mut k: usize = 0;
                while k < a.len()
                    invariant
                        *self == Value::Array(*a),
                        k <= a.len(),
                        out@.len() == k as int,
                        forall|t: int| 0 <= t < k ==> out@[t]@ == a@[t]@,
                    decreases a.len() - k,
                {
                    proof {
                        assert(decreases_to!(*self => self->Array_0));
                        assert(decreases_to!(self->Array_0 => a@));
                        assert(decreases_to!(a@ => a@[k as int]));
                        assert(decreases_to!(*self => a@[k as int]));
                    }
                    out.push(a[k].duplicate());
                    k = k + 1;
                }
                proof {
                    assert(elements_view(out@) =~= elements_view(a@));
                }
                Value::Array(out)
            },
            Value::Object(m) => {
                let mut out: Vec<(String, Value)> = Vec::new();
                let mut k: usize = 0;
                while k < m.len()
                    invariant
                        *self == Value::Object(*m),
                        k <= m.len(),
                        out@.len() == k as int,
                        forall|t: int| 0 <= t < k
                            ==> out@[t].0@ == m@[t].0@ && out@[t].1@ == m@[t].1@,
                    decreases m.len() - k,
                {
                    proof {
                        assert(decreases_to!(*self => self->Object_0));
                        assert(decreases_to!(self->Object_0 => m@));
                        assert(decreases_to!(m@ => m@[k as int]));
                        assert(decreases_to!(m@[k as int] => m@[k as int].1));
                        assert(decreases_to!(*self => m@[k as int].1));
                    }
                    let kv = &m[k];
                    out.push((kv.0.clone(), kv.1.duplicate()));
                    k = k + 1;
                }
                proof {
                    assert(members_view(out@) =~= members_view(m@));
                }
                Value::Object(out)
            },
        }
    }
}

} // verus!
