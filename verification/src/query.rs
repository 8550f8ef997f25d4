//! Query evaluation: applying a parsed [`Query`] to a [`Value`] yields a
//! derived value or a structured error.

use vstd::prelude::*;

use crate::parser::{
    lemma_query_elements_view_index, lemma_query_elements_view_len, lemma_query_members_view_index,
    lemma_query_members_view_len, query_elements_view, query_members_view, Filter, Query,
    QueryModel, StepModel,
};
use crate::value::{
    elements_view, lemma_elements_view_index, lemma_elements_view_len, lemma_members_view_index,
    lemma_members_view_len, members_view, Value, ValueModel,
};

verus! {

broadcast use
    lemma_members_view_len,
    lemma_members_view_index,
    lemma_elements_view_len,
    lemma_elements_view_index,
    lemma_query_members_view_len,
    lemma_query_members_view_index,
    lemma_query_elements_view_len,
    lemma_query_elements_view_index;

/// The kind of a JSON value, named in type-mismatch errors.
#[derive(Debug, Clone, Copy, PartialEq, Eq, Structural)]
pub enum Kind {
    Null,
    Bool,
    /// A number that fits a signed 64-bit integer.
    Int,
    /// Any other number, held as literal text.
    Num,
    Str,
    Array,
    Object,
}

/// The kind of a value's model.
pub open spec fn kind_of(v: ValueModel) -> Kind {
    match v {
        ValueModel::Null => Kind::Null,
        ValueModel::Bool(_) => Kind::Bool,
        ValueModel::Int(_) => Kind::Int,
        ValueModel::Num(_) => Kind::Num,
        ValueModel::Str(_) => Kind::Str,
        ValueModel::Array(_) => Kind::Array,
        ValueModel::Object(_) => Kind::Object,
    }
}

/// A failed evaluation.
#[derive(Debug, PartialEq)]
pub enum EvalError {
    /// A field step named an object member that does not exist.
    FieldNotFound(String),
    /// An index step pointed past the end of an array.
    IndexOutOfRange(usize),
    /// A field step met a non-object, or an index step met a non-array.
    TypeMismatch { expected: Kind, found: Kind },
}

/// The mathematical model of an [`EvalError`].
#[verifier::ext_equal]
pub enum EvalErrorModel {
    FieldNotFound(Seq<char>),
    IndexOutOfRange(int),
    TypeMismatch { expected: Kind, found: Kind },
}

impl View for EvalError {
    type V = EvalErrorModel;

    open spec fn view(&self) -> EvalErrorModel {
        match self {
            EvalError::FieldNotFound(name) => EvalErrorModel::FieldNotFound(name@),
            EvalError::IndexOutOfRange(i) => EvalErrorModel::IndexOutOfRange(*i as int),
            EvalError::TypeMismatch { expected, found } => EvalErrorModel::TypeMismatch {
                expected: *expected,
                found: *found,
            },
        }
    }
}

/// The value of the first object member named `name`, if any.
pub open spec fn lookup_member(
    ms: Seq<(Seq<char>, ValueModel)>,
    name: Seq<char>,
) -> Option<ValueModel>
    decreases ms.len(),
{
    if ms.len() == 0 {
        None
    } else if ms[0].0 == name {
        Some(ms[0].1)
    } else {
        lookup_member(ms.subrange(1, ms.len() as int), name)
    }
}

/// Insertion with last-write-wins semantics: the first member with an
/// equal key is replaced in place; absent that, the member is appended.
pub open spec fn insert_member(
    ms: Seq<(Seq<char>, ValueModel)>,
    name: Seq<char>,
    v: ValueModel,
) -> Seq<(Seq<char>, ValueModel)>
    decreases ms.len(),
{
    if ms.len() == 0 {
        seq![(name, v)]
    } else if ms[0].0 == name {
        seq![(name, v)] + ms.subrange(1, ms.len() as int)
    } else {
        seq![ms[0]] + insert_member(ms.subrange(1, ms.len() as int), name, v)
    }
}

/// `obj` after inserting each of `pairs`, left to right.
pub open spec fn insert_all(
    obj: Seq<(Seq<char>, ValueModel)>,
    pairs: Seq<(Seq<char>, ValueModel)>,
) -> Seq<(Seq<char>, ValueModel)>
    decreases pairs.len(),
{
    if pairs.len() == 0 {
        obj
    } else {
        insert_all(
            insert_member(obj, pairs[0].0, pairs[0].1),
            pairs.subrange(1, pairs.len() as int),
        )
    }
}

/// The object built from evaluated members: each pair is inserted in
/// turn into an initially empty object, so a later duplicate key
/// overwrites an earlier one.
pub open spec fn build_object(
    pairs: Seq<(Seq<char>, ValueModel)>,
) -> Seq<(Seq<char>, ValueModel)> {
    insert_all(Seq::empty(), pairs)
}

/// What applying a path to a value yields: each step descends into an
/// object member or array element; the first failing step decides the
/// error; an empty path is the identity.
pub open spec fn apply_steps(
    steps: Seq<StepModel>,
    v: ValueModel,
) -> Result<ValueModel, EvalErrorModel>
    decreases steps.len(),
{
    if steps.len() == 0 {
        Ok(v)
    } else {
        match steps[0] {
            StepModel::Field(name) => match v {
                ValueModel::Object(ms) => match lookup_member(ms, name) {
                    Some(w) => apply_steps(steps.subrange(1, steps.len() as int), w),
                    None => Err(EvalErrorModel::FieldNotFound(name)),
                },
                _ => Err(
                    EvalErrorModel::TypeMismatch { expected: Kind::Object, found: kind_of(v) },
                ),
            },
            StepModel::Index(i) => match v {
                ValueModel::Array(es) => if 0 <= i < es.len() {
                    apply_steps(steps.subrange(1, steps.len() as int), es[i])
                } else {
                    Err(EvalErrorModel::IndexOutOfRange(i))
                },
                _ => Err(
                    EvalErrorModel::TypeMismatch { expected: Kind::Array, found: kind_of(v) },
                ),
            },
        }
    }
}

/// What evaluating a query against a value yields: object and array
/// constructors evaluate every child against the same value, in declared
/// order, short-circuiting on the first error; a filter applies its path.
pub open spec fn eval_query(q: QueryModel, v: ValueModel) -> Result<ValueModel, EvalErrorModel>
    decreases q, 0int,
{
    match q {
        QueryModel::Object(ms) => match eval_members(ms, v) {
            Ok(pairs) => Ok(ValueModel::Object(build_object(pairs))),
            Err(e) => Err(e),
        },
        QueryModel::Array(es) => match eval_elements(es, v) {
            Ok(ws) => Ok(ValueModel::Array(ws)),
            Err(e) => Err(e),
        },
        QueryModel::Filter(steps) => apply_steps(steps, v),
    }
}

/// The evaluated members of an object constructor, in declared order,
/// each against the same value; the first error wins.
pub open spec fn eval_members(
    ms: Seq<(Seq<char>, QueryModel)>,
    v: ValueModel,
) -> Result<Seq<(Seq<char>, ValueModel)>, EvalErrorModel>
    decreases ms, 1int,
{
    if ms.len() == 0 {
        Ok(Seq::empty())
    } else {
        match eval_query(ms[0].1, v) {
            Ok(w) => match eval_members(ms.subrange(1, ms.len() as int), v) {
                Ok(rest) => Ok(seq![(ms[0].0, w)] + rest),
                Err(e) => Err(e),
            },
            Err(e) => Err(e),
        }
    }
}

/// The evaluated elements of an array constructor, in declared order,
/// each against the same value; the first error wins.
pub open spec fn eval_elements(
    es: Seq<QueryModel>,
    v: ValueModel,
) -> Result<Seq<ValueModel>, EvalErrorModel>
    decreases es, 1int,
{
    if es.len() == 0 {
        Ok(Seq::empty())
    } else {
        match eval_query(es[0], v) {
            Ok(w) => match eval_elements(es.subrange(1, es.len() as int), v) {
                Ok(rest) => Ok(seq![w] + rest),
                Err(e) => Err(e),
            },
            Err(e) => Err(e),
        }
    }
}

proof fn lemma_lookup_member_found(ms: Seq<(Seq<char>, ValueModel)>, name: Seq<char>, j: int)
    requires
        0 <= j < ms.len(),
        forall|t: int| 0 <= t < j ==> ms[t].0 != name,
        ms[j].0 == name,
    ensures
        lookup_member(ms, name) == Some(ms[j].1),
    decreases j,
{
    if j > 0 {
        let tail = ms.subrange(1, ms.len() as int);
        assert forall|t: int| 0 <= t < j - 1 implies tail[t].0 != name by {
            assert(tail[t] == ms[t + 1]);
        }
        assert(tail[j - 1] == ms[j]);
        lemma_lookup_member_found(tail, name, j - 1);
    }
}

proof fn lemma_lookup_member_absent(ms: Seq<(Seq<char>, ValueModel)>, name: Seq<char>)
    requires
        forall|t: int| 0 <= t < ms.len() ==> ms[t].0 != name,
    ensures
        lookup_member(ms, name) is None,
    decreases ms.len(),
{
    if ms.len() > 0 {
        let tail = ms.subrange(1, ms.len() as int);
        assert forall|t: int| 0 <= t < tail.len() implies tail[t].0 != name by {
            assert(tail[t] == ms[t + 1]);
        }
        lemma_lookup_member_absent(tail, name);
    }
}

/// The kind of a value, as named in type-mismatch errors.
fn kind_of_value(v: &Value) -> (k: Kind)
    ensures
        k == kind_of(v@),
{
    match v {
        Value::Null => Kind::Null,
        Value::Bool(_) => Kind::Bool,
        Value::Int(_) => Kind::Int,
        Value::Num(_) => Kind::Num,
        Value::Str(_) => Kind::Str,
        Value::Array(_) => Kind::Array,
        Value::Object(_) => Kind::Object,
    }
}

fn apply_filter_ref(filter: &Filter, value: &Value) -> (r: Result<Value, EvalError>)
    ensures
        (match r {
            Ok(v) => apply_steps(filter@, value@) == Ok::<ValueModel, EvalErrorModel>(v@),
            Err(e) => apply_steps(filter@, value@) == Err::<ValueModel, EvalErrorModel>(e@),
        }),
    decreases *filter,
{
    match filter {
        Filter::Null => {
            proof {
                assert(filter@ =~= Seq::<StepModel>::empty());
            }
            Ok(value.duplicate())
        },
        Filter::Field(name, next) => {
            proof {
                assert(filter@ == seq![StepModel::Field(name@)] + (**next)@);
                assert(filter@[0] == StepModel::Field(name@));
                assert(filter@.subrange(1, filter@.len() as int) =~= (**next)@);
            }
            match value {
                Value::Object(ms) => {
                    let mut k: usize = 0;
                    while k < ms.len()
                        invariant
                            *filter == Filter::Field(*name, *next),
                            *value == Value::Object(*ms),
                            k <= ms.len(),
                            forall|t: int| 0 <= t < k ==> ms@[t].0@ != name@,
                        decreases ms.len() - k,
                    {
                        if ms[k].0 == *name {
                            proof {
                                assert(filter@ == seq![StepModel::Field(name@)] + (**next)@);
                                assert(filter@[0] == StepModel::Field(name@));
                                assert(filter@.subrange(1, filter@.len() as int) =~= (**next)@);
                                assert(value@ == ValueModel::Object(members_view(ms@)));
                                assert(members_view(ms@)[k as int] == (ms@[k as int].0@, ms@[k as int].1@));
                                assert forall|t: int| 0 <= t < k implies members_view(ms@)[t].0 != name@ by {
                                    assert(members_view(ms@)[t] == (ms@[t].0@, ms@[t].1@));
                                }
                                lemma_lookup_member_found(members_view(ms@), name@, k as int);
                                assert(decreases_to!(*filter => **next));
                            }
                            return apply_filter_ref(next, &ms[k].1);
                        }
                        k = k + 1;
                    }
                    proof {
                        assert forall|t: int| 0 <= t < members_view(ms@).len() implies members_view(
                            ms@,
                        )[t].0 != name@ by {
                            assert(members_view(ms@)[t] == (ms@[t].0@, ms@[t].1@));
                        }
                        lemma_lookup_member_absent(members_view(ms@), name@);
                    }
                    Err(EvalError::FieldNotFound(name.clone()))
                },
                _ => Err(
                    EvalError::TypeMismatch { expected: Kind::Object, found: kind_of_value(value) },
                ),
            }
        },
        Filter::Index(i, next) => {
            proof {
                assert(filter@ == seq![StepModel::Index(*i as int)] + (**next)@);
                assert(filter@[0] == StepModel::Index(*i as int));
                assert(filter@.subrange(1, filter@.len() as int) =~= (**next)@);
            }
            match value {
                Value::Array(es) => {
                    if *i < es.len() {
                        proof {
                            assert(elements_view(es@)[*i as int] == es@[*i as int]@);
                            assert(decreases_to!(*filter => **next));
                        }
                        apply_filter_ref(next, &es[*i])
                    } else {
                        Err(EvalError::IndexOutOfRange(*i))
                    }
                },
                _ => Err(
                    EvalError::TypeMismatch { expected: Kind::Array, found: kind_of_value(value) },
                ),
            }
        },
    }
}

proof fn lemma_insert_member_replace(
    ms: Seq<(Seq<char>, ValueModel)>,
    name: Seq<char>,
    v: ValueModel,
    j: int,
)
    requires
        0 <= j < ms.len(),
        ms[j].0 == name,
        forall|t: int| 0 <= t < j ==> ms[t].0 != name,
    ensures
        insert_member(ms, name, v) == ms.update(j, (name, v)),
    decreases j,
{
    let tail = ms.subrange(1, ms.len() as int);
    if j == 0 {
        assert(insert_member(ms, name, v) == seq![(name, v)] + tail);
        assert(seq![(name, v)] + tail =~= ms.update(0, (name, v)));
    } else {
        assert forall|t: int| 0 <= t < j - 1 implies tail[t].0 != name by {
            assert(tail[t] == ms[t + 1]);
        }
        assert(tail[j - 1] == ms[j]);
        lemma_insert_member_replace(tail, name, v, j - 1);
        assert(insert_member(ms, name, v) == seq![ms[0]] + tail.update(j - 1, (name, v)));
        assert(seq![ms[0]] + tail.update(j - 1, (name, v)) =~= ms.update(j, (name, v)));
    }
}

proof fn lemma_insert_member_append(ms: Seq<(Seq<char>, ValueModel)>, name: Seq<char>, v: ValueModel)
    requires
        forall|t: int| 0 <= t < ms.len() ==> ms[t].0 != name,
    ensures
        insert_member(ms, name, v) == ms.push((name, v)),
    decreases ms.len(),
{
    if ms.len() == 0 {
        assert(insert_member(ms, name, v) =~= ms.push((name, v)));
    } else {
        let tail = ms.subrange(1, ms.len() as int);
        assert forall|t: int| 0 <= t < tail.len() implies tail[t].0 != name by {
            assert(tail[t] == ms[t + 1]);
        }
        lemma_insert_member_append(tail, name, v);
        assert(insert_member(ms, name, v) == seq![ms[0]] + tail.push((name, v)));
        assert(seq![ms[0]] + tail.push((name, v)) =~= ms.push((name, v)));
    }
}

/// Insert a member with last-write-wins semantics: replace the value of
/// the first member with an equal key, else append a new member.
fn insert_pair(out: &mut Vec<(String, Value)>, key: String, val: Value)
    ensures
        members_view(final(out)@) == insert_member(members_view(old(out)@), key@, val@),
{
    let mut j: usize = 0;
    while j < out.len()
        invariant
            j <= out.len(),
            *out == *old(out),
            forall|t: int| 0 <= t < j ==> out@[t].0@ != key@,
        decreases out@.len() - j,
    {
        if out[j].0 == key {
            proof {
                assert forall|t: int| 0 <= t < j implies members_view(out@)[t].0 != key@ by {
                    assert(members_view(out@)[t] == (out@[t].0@, out@[t].1@));
                }
                assert(members_view(out@)[j as int] == (out@[j as int].0@, out@[j as int].1@));
                lemma_insert_member_replace(members_view(out@), key@, val@, j as int);
            }
            let ghost prior = out@;
            out[j] = (key, val);
            proof {
                assert forall|t: int| 0 <= t < out@.len() implies members_view(out@)[t]
                    == members_view(prior).update(j as int, (key@, val@))[t] by {
                    assert(members_view(out@)[t] == (out@[t].0@, out@[t].1@));
                    assert(members_view(prior)[t] == (prior[t].0@, prior[t].1@));
                }
                assert(members_view(out@) =~= members_view(prior).update(j as int, (key@, val@)));
            }
            return ;
        }
        j = j + 1;
    }
    proof {
        assert forall|t: int| 0 <= t < members_view(out@).len() implies members_view(out@)[t].0
            != key@ by {
            assert(members_view(out@)[t] == (out@[t].0@, out@[t].1@));
        }
        lemma_insert_member_append(members_view(out@), key@, val@);
    }
    let ghost prior = out@;
    out.push((key, val));
    proof {
        assert forall|t: int| 0 <= t < out@.len() implies members_view(out@)[t]
            == members_view(prior).push((key@, val@))[t] by {
            assert(members_view(out@)[t] == (out@[t].0@, out@[t].1@));
            if t < prior.len() {
                assert(members_view(prior)[t] == (prior[t].0@, prior[t].1@));
            }
        }
        assert(members_view(out@) =~= members_view(prior).push((key@, val@)));
    }
}

fn execute_query_ref(q: &Query, v: &Value) -> (r: Result<Value, EvalError>)
    ensures
        (match r {
            Ok(w) => eval_query(q@, v@) == Ok::<ValueModel, EvalErrorModel>(w@),
            Err(e) => eval_query(q@, v@) == Err::<ValueModel, EvalErrorModel>(e@),
        }),
    decreases *q,
{
    match q {
        Query::Filter(f) => {
            proof {
                assert(q@ == QueryModel::Filter(f@));
            }
            apply_filter_ref(f, v)
        },
        Query::Array(es) => {
            let mut out: Vec<Value> = Vec::new();
            let mut k: usize = 0;
            proof {
                assert(query_elements_view(es@).subrange(0, query_elements_view(es@).len() as int)
                    =~= query_elements_view(es@));
                assert(elements_view(out@) =~= Seq::<ValueModel>::empty());
            }
            while k < es.len()
                invariant
                    *q == Query::Array(*es),
                    k <= es.len(),
                    (match eval_elements(
                        query_elements_view(es@).subrange(k as int, es@.len() as int),
                        v@,
                    ) {
                        Ok(ws) => eval_query(q@, v@) == Ok::<ValueModel, EvalErrorModel>(
                            ValueModel::Array(elements_view(out@) + ws),
                        ),
                        Err(e) => eval_query(q@, v@) == Err::<ValueModel, EvalErrorModel>(e),
                    }),
                decreases es@.len() - k,
            {
                proof {
                    assert(decreases_to!(*q => q->Array_0));
                    assert(decreases_to!(q->Array_0 => es@));
                    assert(decreases_to!(es@ => es@[k as int]));
                    assert(decreases_to!(*q => es@[k as int]));
                }
                let ghost qev = query_elements_view(es@);
                let ghost suffix = qev.subrange(k as int, qev.len() as int);
                proof {
                    assert(suffix[0] == qev[k as int]);
                    assert(qev[k as int] == es@[k as int]@);
                    assert(suffix.subrange(1, suffix.len() as int) =~= qev.subrange(
                        k + 1,
                        qev.len() as int,
                    ));
                }
                let rk = execute_query_ref(&es[k], v);
                proof {
                    let tailseq = suffix.subrange(1, suffix.len() as int);
                    assert(rk is Ok ==> eval_elements(suffix, v@) == (match eval_elements(
                        tailseq,
                        v@,
                    ) {
                        Ok(ws) => Ok::<Seq<ValueModel>, EvalErrorModel>(seq![rk->Ok_0@] + ws),
                        Err(e) => Err::<Seq<ValueModel>, EvalErrorModel>(e),
                    }));
                    assert(rk is Err ==> eval_elements(suffix, v@)
                        == Err::<Seq<ValueModel>, EvalErrorModel>(rk->Err_0@));
                }
                match rk {
                    Ok(w) => {
                        let ghost wm = w@;
                        let ghost prior = out@;
                        out.push(w);
                        k = k + 1;
                        proof {
                            assert forall|t: int| 0 <= t < out@.len() implies elements_view(out@)[t]
                                == elements_view(prior).push(wm)[t] by {
                                assert(elements_view(out@)[t] == out@[t]@);
                                if t < prior.len() {
                                    assert(elements_view(prior)[t] == prior[t]@);
                                }
                            }
                            assert(elements_view(out@) =~= elements_view(prior).push(wm));
                            let ns = qev.subrange(k as int, qev.len() as int);
                            assert(ns == suffix.subrange(1, suffix.len() as int));
                            if eval_elements(ns, v@) is Ok {
                                let ws = eval_elements(ns, v@)->Ok_0;
                                assert(eval_elements(suffix, v@)
                                    == Ok::<Seq<ValueModel>, EvalErrorModel>(seq![wm] + ws));
                                assert(elements_view(prior) + (seq![wm] + ws) =~= elements_view(
                                    out@,
                                ) + ws);
                            }
                        }
                    },
                    Err(e) => {
                        proof {
                            assert(eval_query(q@, v@) == Err::<ValueModel, EvalErrorModel>(e@));
                        }
                        return Err(e);
                    },
                }
            }
            proof {
                assert(query_elements_view(es@).subrange(es@.len() as int, es@.len() as int)
                    =~= Seq::<QueryModel>::empty());
                assert(elements_view(out@) + Seq::<ValueModel>::empty() =~= elements_view(out@));
            }
            Ok(Value::Array(out))
        },
        Query::Object(ms) => {
            let mut out: Vec<(String, Value)> = Vec::new();
            let mut k: usize = 0;
            proof {
                assert(query_members_view(ms@).subrange(0, query_members_view(ms@).len() as int)
                    =~= query_members_view(ms@));
                assert(members_view(out@) =~= Seq::<(Seq<char>, ValueModel)>::empty());
            }
            while k < ms.len()
                invariant
                    *q == Query::Object(*ms),
                    k <= ms.len(),
                    (match eval_members(
                        query_members_view(ms@).subrange(k as int, ms@.len() as int),
                        v@,
                    ) {
                        Ok(pairs) => eval_query(q@, v@) == Ok::<ValueModel, EvalErrorModel>(
                            ValueModel::Object(insert_all(members_view(out@), pairs)),
                        ),
                        Err(e) => eval_query(q@, v@) == Err::<ValueModel, EvalErrorModel>(e),
                    }),
                decreases ms@.len() - k,
            {
                proof {
                    assert(decreases_to!(*q => q->Object_0));
                    assert(decreases_to!(q->Object_0 => ms@));
                    assert(decreases_to!(ms@ => ms@[k as int]));
                    assert(decreases_to!(ms@[k as int] => ms@[k as int].1));
                    assert(decreases_to!(*q => ms@[k as int].1));
                }
                let ghost qmv = query_members_view(ms@);
                let ghost suffix = qmv.subrange(k as int, qmv.len() as int);
                proof {
                    assert(suffix[0] == qmv[k as int]);
                    assert(qmv[k as int] == (ms@[k as int].0@, ms@[k as int].1@));
                    assert(suffix.subrange(1, suffix.len() as int) =~= qmv.subrange(
                        k + 1,
                        qmv.len() as int,
                    ));
                }
                let member = &ms[k];
                let rk = execute_query_ref(&member.1, v);
                proof {
                    let tailseq = suffix.subrange(1, suffix.len() as int);
                    assert(rk is Ok ==> eval_members(suffix, v@) == (match eval_members(
                        tailseq,
                        v@,
                    ) {
                        Ok(rest) => Ok::<Seq<(Seq<char>, ValueModel)>, EvalErrorModel>(
                            seq![(ms@[k as int].0@, rk->Ok_0@)] + rest,
                        ),
                        Err(e) => Err::<Seq<(Seq<char>, ValueModel)>, EvalErrorModel>(e),
                    }));
                    assert(rk is Err ==> eval_members(suffix, v@)
                        == Err::<Seq<(Seq<char>, ValueModel)>, EvalErrorModel>(rk->Err_0@));
                }
                match rk {
                    Ok(w) => {
                        let ghost prior = members_view(out@);
                        let ghost wm = w@;
                        let ghost keym = ms@[k as int].0@;
                        let key = member.0.clone();
                        insert_pair(&mut out, key, w);
                        k = k + 1;
                        proof {
                            assert(members_view(out@) == insert_member(prior, keym, wm));
                            let ns = qmv.subrange(k as int, qmv.len() as int);
                            assert(ns == suffix.subrange(1, suffix.len() as int));
                            if eval_members(ns, v@) is Ok {
                                let rest = eval_members(ns, v@)->Ok_0;
                                assert(eval_members(suffix, v@)
                                    == Ok::<Seq<(Seq<char>, ValueModel)>, EvalErrorModel>(
                                    seq![(keym, wm)] + rest,
                                ));
                                let pairs = seq![(keym, wm)] + rest;
                                assert(pairs[0] == (keym, wm));
                                assert(pairs.subrange(1, pairs.len() as int) =~= rest);
                                assert(insert_all(prior, pairs) == insert_all(
                                    insert_member(prior, keym, wm),
                                    rest,
                                ));
                            }
                        }
                    },
                    Err(e) => {
                        proof {
                            assert(eval_query(q@, v@) == Err::<ValueModel, EvalErrorModel>(e@));
                        }
                        return Err(e);
                    },
                }
            }
            proof {
                assert(query_members_view(ms@).subrange(ms@.len() as int, ms@.len() as int)
                    =~= Seq::<(Seq<char>, QueryModel)>::empty());
            }
            Ok(Value::Object(out))
        },
    }
}

/// Evaluate a query against a value: object and array constructors
/// evaluate every child against the same value, in declared order,
/// short-circuiting on the first error, with duplicate object keys
/// resolved last-write-wins; a bare filter applies its path.
pub fn execute_query(query: Query, value: Value) -> (r: Result<Value, EvalError>)
    ensures
        (match r {
            Ok(w) => eval_query(query@, value@) == Ok::<ValueModel, EvalErrorModel>(w@),
            Err(e) => eval_query(query@, value@) == Err::<ValueModel, EvalErrorModel>(e@),
        }),
{
    execute_query_ref(&query, &value)
}

/// Law: the identity filter maps every value to itself, both as a bare
/// path application and as a query.
pub proof fn lemma_identity_filter(v: ValueModel)
    ensures
        apply_steps(Seq::empty(), v) == Ok::<ValueModel, EvalErrorModel>(v),
        eval_query(QueryModel::Filter(Seq::empty()), v) == Ok::<ValueModel, EvalErrorModel>(v),
{
}

/// Law: a successful array construction has one output element per
/// declared element, in declared order, each the result of evaluating
/// that element's query against the same source value.
pub proof fn lemma_array_order(es: Seq<QueryModel>, v: ValueModel, ws: Seq<ValueModel>)
    requires
        eval_elements(es, v) == Ok::<Seq<ValueModel>, EvalErrorModel>(ws),
    ensures
        ws.len() == es.len(),
        forall|i: int| 0 <= i < es.len()
            ==> eval_query(es[i], v) == Ok::<ValueModel, EvalErrorModel>(ws[i]),
    decreases es,
{
    if es.len() > 0 {
        let tail = es.subrange(1, es.len() as int);
        if eval_query(es[0], v) is Ok {
            let w0 = eval_query(es[0], v)->Ok_0;
            if eval_elements(tail, v) is Ok {
                let rest = eval_elements(tail, v)->Ok_0;
                lemma_array_order(tail, v, rest);
                assert(ws == seq![w0] + rest);
                assert forall|i: int| 0 <= i < es.len() implies eval_query(es[i], v)
                    == Ok::<ValueModel, EvalErrorModel>(ws[i]) by {
                    if i > 0 {
                        assert(tail[i - 1] == es[i]);
                        assert((seq![w0] + rest)[i] == rest[i - 1]);
                    } else {
                        assert((seq![w0] + rest)[0] == w0);
                    }
                }
            }
        }
    }
}

/// Law: a successful object construction evaluates one member per
/// declared member, in declared order, keeping each declared key and
/// pairing it with the result of evaluating that member's query against
/// the same source value.
pub proof fn lemma_object_members(
    ms: Seq<(Seq<char>, QueryModel)>,
    v: ValueModel,
    pairs: Seq<(Seq<char>, ValueModel)>,
)
    requires
        eval_members(ms, v) == Ok::<Seq<(Seq<char>, ValueModel)>, EvalErrorModel>(pairs),
    ensures
        pairs.len() == ms.len(),
        forall|i: int| 0 <= i < ms.len() ==> #[trigger] pairs[i].0 == ms[i].0,
        forall|i: int| 0 <= i < ms.len()
            ==> eval_query(ms[i].1, v) == Ok::<ValueModel, EvalErrorModel>(#[trigger] pairs[i].1),
    decreases ms,
{
    if ms.len() > 0 {
        let tail = ms.subrange(1, ms.len() as int);
        if eval_query(ms[0].1, v) is Ok {
            let w0 = eval_query(ms[0].1, v)->Ok_0;
            if eval_members(tail, v) is Ok {
                let rest = eval_members(tail, v)->Ok_0;
                lemma_object_members(tail, v, rest);
                assert(pairs == seq![(ms[0].0, w0)] + rest);
                assert forall|i: int| 0 <= i < ms.len() implies #[trigger] pairs[i].0 == ms[i].0
                    && eval_query(ms[i].1, v) == Ok::<ValueModel, EvalErrorModel>(pairs[i].1) by {
                    if i > 0 {
                        assert(tail[i - 1] == ms[i]);
                        assert((seq![(ms[0].0, w0)] + rest)[i] == rest[i - 1]);
                    } else {
                        assert((seq![(ms[0].0, w0)] + rest)[0] == (ms[0].0, w0));
                    }
                }
            }
        }
    }
}

/// Law: inserting a member makes its key map to the inserted value (the
/// last write wins), and leaves the value of every other key unchanged.
pub proof fn lemma_insert_member_lookup(
    obj: Seq<(Seq<char>, ValueModel)>,
    name: Seq<char>,
    w: ValueModel,
    other: Seq<char>,
)
    ensures
        lookup_member(insert_member(obj, name, w), name) == Some(w),
        other != name ==> lookup_member(insert_member(obj, name, w), other) == lookup_member(
            obj,
            other,
        ),
    decreases obj.len(),
{
    let tail = obj.subrange(1, obj.len() as int);
    if obj.len() == 0 {
        let ins = seq![(name, w)];
        assert(insert_member(obj, name, w) == ins);
        assert(ins.subrange(1, 1) =~= Seq::<(Seq<char>, ValueModel)>::empty());
        if other != name {
            assert(lookup_member(ins, other) == lookup_member(Seq::empty(), other));
            assert(lookup_member(ins, other) is None);
            assert(lookup_member(obj, other) is None);
        }
    } else if obj[0].0 == name {
        let ins = seq![(name, w)] + tail;
        assert(insert_member(obj, name, w) == ins);
        assert(ins[0] == (name, w));
        assert(ins.subrange(1, ins.len() as int) =~= tail);
        if other != name {
            assert(lookup_member(ins, other) == lookup_member(tail, other));
            assert(lookup_member(obj, other) == lookup_member(tail, other));
        }
    } else {
        lemma_insert_member_lookup(tail, name, w, other);
        let ins = seq![obj[0]] + insert_member(tail, name, w);
        assert(insert_member(obj, name, w) == ins);
        assert(ins[0] == obj[0]);
        assert(ins.subrange(1, ins.len() as int) =~= insert_member(tail, name, w));
        assert(lookup_member(ins, name) == lookup_member(insert_member(tail, name, w), name));
        if other != name {
            if obj[0].0 == other {
                assert(lookup_member(ins, other) == Some(obj[0].1));
                assert(lookup_member(obj, other) == Some(obj[0].1));
            } else {
                assert(lookup_member(ins, other) == lookup_member(
                    insert_member(tail, name, w),
                    other,
                ));
                assert(lookup_member(obj, other) == lookup_member(tail, other));
            }
        }
    }
}

/// Apply a path expression to a value: each step descends into the named
/// object member or indexed array element; the identity filter returns
/// the value unchanged.
pub fn apply_filter(filter: Filter, value: Value) -> (r: Result<Value, EvalError>)
    ensures
        (match r {
            Ok(v) => apply_steps(filter@, value@) == Ok::<ValueModel, EvalErrorModel>(v@),
            Err(e) => apply_steps(filter@, value@) == Err::<ValueModel, EvalErrorModel>(e@),
        }),
{
    apply_filter_ref(&filter, &value)
}

} // verus!
