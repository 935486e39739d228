//! The tree data model: atoms, ordered arrays, and key-ordered objects.

use vstd::prelude::*;

verus! {

broadcast use vstd::std_specs::vec::group_vec_axioms;

/// Ghost model of a value: the mathematical tree the contracts speak of.
/// Numbers are modelled as unbounded integers, text as character sequences.
pub enum ValueModel {
    Number(int),
    String(Seq<char>),
    Boolean(bool),
    Null,
    Array(Seq<ValueModel>),
    Object(Seq<(Seq<char>, ValueModel)>),
}

/// A concrete tree value.  An `Object` keeps its entries sorted strictly
/// ascending by key (see [`wf`]), which fixes one reproducible entry order
/// that both ends of the token protocol agree on.
#[derive(Debug, PartialEq)]
pub enum Value {
    Number(i64),
    String(String),
    Boolean(bool),
    Null,
    Array(Vec<Value>),
    Object(Vec<(String, Value)>),
}

/// The models of a sequence of values, elementwise.
pub open spec fn model_of_values(els: Seq<Value>) -> Seq<ValueModel>
    decreases els,
{
    if els.len() == 0 {
        Seq::empty()
    } else {
        model_of_values(els.drop_last()).push(els.last().view())
    }
}

/// The models of a sequence of object entries, elementwise.
pub open spec fn model_of_entries(es: Seq<(String, Value)>) -> Seq<(Seq<char>, ValueModel)>
    decreases es,
{
    if es.len() == 0 {
        Seq::empty()
    } else {
        model_of_entries(es.drop_last()).push((es.last().0@, es.last().1.view()))
    }
}

impl View for Value {
    type V = ValueModel;

    open spec fn view(&self) -> ValueModel
        decreases self,
    {
        match self {
            Value::Number(n) => ValueModel::Number(*n as int),
            Value::String(s) => ValueModel::String(s@),
            Value::Boolean(b) => ValueModel::Boolean(*b),
            Value::Null => ValueModel::Null,
            Value::Array(els) => ValueModel::Array(model_of_values(els@)),
            Value::Object(entries) => ValueModel::Object(model_of_entries(entries@)),
        }
    }
}

pub proof fn lemma_model_of_values_len(els: Seq<Value>)
    ensures
        model_of_values(els).len() == els.len(),
    decreases els.len(),
{
    if els.len() > 0 {
        lemma_model_of_values_len(els.drop_last());
        assert(els.drop_last().len() == els.len() - 1);
        assert(model_of_values(els.drop_last()).len() == els.len() - 1);
        assert(model_of_values(els) == model_of_values(els.drop_last()).push(
            els.last().view(),
        ));
    }
}

pub proof fn lemma_model_of_values_index(els: Seq<Value>, i: int)
    requires
        0 <= i < els.len(),
    ensures
        model_of_values(els).len() == els.len(),
        model_of_values(els)[i] == els[i]@,
    decreases els.len(),
{
    lemma_model_of_values_len(els);
    lemma_model_of_values_len(els.drop_last());
    assert(els.drop_last().len() == els.len() - 1);
    assert(model_of_values(els) == model_of_values(els.drop_last()).push(els.last().view()));
    if i < els.len() - 1 {
        lemma_model_of_values_index(els.drop_last(), i);
        assert(els.drop_last()[i] == els[i]);
    }
}

pub proof fn lemma_model_of_entries_len(es: Seq<(String, Value)>)
    ensures
        model_of_entries(es).len() == es.len(),
    decreases es.len(),
{
    if es.len() > 0 {
        lemma_model_of_entries_len(es.drop_last());
        assert(es.drop_last().len() == es.len() - 1);
        assert(model_of_entries(es) == model_of_entries(es.drop_last()).push(
            (es.last().0@, es.last().1.view()),
        ));
    }
}

pub proof fn lemma_model_of_entries_index(es: Seq<(String, Value)>, i: int)
    requires
        0 <= i < es.len(),
    ensures
        model_of_entries(es).len() == es.len(),
        model_of_entries(es)[i] == (es[i].0@, es[i].1@),
    decreases es.len(),
{
    lemma_model_of_entries_len(es);
    lemma_model_of_entries_len(es.drop_last());
    assert(es.drop_last().len() == es.len() - 1);
    assert(model_of_entries(es) == model_of_entries(es.drop_last()).push(
        (es.last().0@, es.last().1.view()),
    ));
    if i < es.len() - 1 {
        lemma_model_of_entries_index(es.drop_last(), i);
        assert(es.drop_last()[i] == es[i]);
    }
}

/// Strict lexicographic order on character sequences, by code point.
pub open spec fn seq_lt(a: Seq<char>, b: Seq<char>) -> bool
    decreases a.len(),
{
    if b.len() == 0 {
        false
    } else if a.len() == 0 {
        true
    } else if a[0] as u32 != b[0] as u32 {
        (a[0] as u32) < (b[0] as u32)
    } else {
        seq_lt(a.drop_first(), b.drop_first())
    }
}

pub proof fn lemma_seq_lt_irreflexive(a: Seq<char>)
    ensures
        !seq_lt(a, a),
    decreases a.len(),
{
    if a.len() > 0 {
        lemma_seq_lt_irreflexive(a.drop_first());
    }
}

pub proof fn lemma_seq_lt_trans(a: Seq<char>, b: Seq<char>, c: Seq<char>)
    requires
        seq_lt(a, b),
        seq_lt(b, c),
    ensures
        seq_lt(a, c),
    decreases a.len(),
{
    if a.len() > 0 && b.len() > 0 && c.len() > 0 && a[0] as u32 == b[0] as u32 && b[0] as u32 == c[0]
        as u32 {
        lemma_seq_lt_trans(a.drop_first(), b.drop_first(), c.drop_first());
    }
}

/// Well-formedness of a model value: every object's keys are strictly
/// ascending (hence pairwise distinct), at every nesting level.
pub open spec fn wf(v: ValueModel) -> bool
    decreases v, 1int,
{
    match v {
        ValueModel::Array(els) => wf_values(els),
        ValueModel::Object(entries) => wf_entries(entries),
        _ => true,
    }
}

/// Every element of an array body is well formed.
pub open spec fn wf_values(els: Seq<ValueModel>) -> bool
    decreases els, 0int,
{
    if els.len() == 0 {
        true
    } else {
        wf_values(els.drop_last()) && wf(els.last())
    }
}

/// Every entry value of an object body is well formed and the keys are
/// strictly ascending.
pub open spec fn wf_entries(es: Seq<(Seq<char>, ValueModel)>) -> bool
    decreases es, 0int,
{
    if es.len() == 0 {
        true
    } else {
        wf_entries(es.drop_last()) && wf(es.last().1) && (es.len() >= 2 ==> seq_lt(
            es[es.len() - 2].0,
            es.last().0,
        ))
    }
}

pub proof fn lemma_wf_values_index(els: Seq<ValueModel>, i: int)
    requires
        wf_values(els),
        0 <= i < els.len(),
    ensures
        wf(els[i]),
    decreases els.len(),
{
    if i < els.len() - 1 {
        lemma_wf_values_index(els.drop_last(), i);
        assert(els.drop_last()[i] == els[i]);
    }
}

pub proof fn lemma_wf_entries_index(es: Seq<(Seq<char>, ValueModel)>, i: int)
    requires
        wf_entries(es),
        0 <= i < es.len(),
    ensures
        wf(es[i].1),
        i + 1 < es.len() ==> seq_lt(es[i].0, es[i + 1].0),
    decreases es.len(),
{
    if i < es.len() - 1 {
        lemma_wf_entries_index(es.drop_last(), i);
        assert(es.drop_last()[i] == es[i]);
        if i + 1 < es.len() - 1 {
            assert(es.drop_last()[i + 1] == es[i + 1]);
        }
    }
}

/// The value stored under key `k`, if any: the first entry whose key is `k`.
pub open spec fn obj_lookup(entries: Seq<(Seq<char>, ValueModel)>, k: Seq<char>) -> Option<
    ValueModel,
>
    decreases entries.len(),
{
    if entries.len() == 0 {
        None
    } else if entries[0].0 == k {
        Some(entries[0].1)
    } else {
        obj_lookup(entries.drop_first(), k)
    }
}

/// Equality of two strings, as equality of their character sequences.
pub fn string_eq(a: &String, b: &String) -> (r: bool)
    ensures
        r == (a@ == b@),
{
    a.eq(b)
}

/// Strict lexicographic comparison of two strings, by character code point.
pub fn str_lt(a: &str, b: &str) -> (r: bool)
    ensures
        r == seq_lt(a@, b@),
{
    let a_len: usize = a.unicode_len();
    let b_len: usize = b.unicode_len();
    let mut i: usize = 0;
    proof {
        assert(a@.skip(0) =~= a@);
        assert(b@.skip(0) =~= b@);
    }
    loop
        invariant
            i <= a_len,
            i <= b_len,
            a_len == a@.len(),
            b_len == b@.len(),
            seq_lt(a@, b@) == seq_lt(a@.skip(i as int), b@.skip(i as int)),
        decreases a_len - i,
    {
        if i == b_len {
            proof {
                assert(b@.skip(i as int).len() == 0);
            }
            return false;
        }
        if i == a_len {
            proof {
                assert(a@.skip(i as int).len() == 0);
                assert(b@.skip(i as int).len() > 0);
            }
            return true;
        }
        let ca = a.get_char(i);
        let cb = b.get_char(i);
        proof {
            assert(a@.skip(i as int)[0] == a@[i as int]);
            assert(b@.skip(i as int)[0] == b@[i as int]);
            assert(a@.skip(i as int).drop_first() =~= a@.skip(i as int + 1));
            assert(b@.skip(i as int).drop_first() =~= b@.skip(i as int + 1));
        }
        if ca as u32 != cb as u32 {
            return (ca as u32) < (cb as u32);
        }
        i = i + 1;
    }
}

} // verus!
