//! The producer stage: linearizing a value into a token stream.

use vstd::prelude::*;

use crate::token::{lemma_stream_view_push, stream_view, Token, TokenModel};
use crate::value::{
    lemma_model_of_entries_index, lemma_model_of_entries_len, lemma_model_of_values_index,
    lemma_model_of_values_len, Value, ValueModel,
};

verus! {

broadcast use vstd::std_specs::vec::group_vec_axioms;

/// The body of an encoded array: one `SubStream` token per element, in order.
pub open spec fn arr_tokens(els: Seq<ValueModel>) -> Seq<TokenModel>
    decreases els,
{
    if els.len() == 0 {
        Seq::empty()
    } else {
        arr_tokens(els.drop_last()) + seq![TokenModel::SubStream(encoding(els.last()))]
    }
}

/// The body of an encoded object: for each entry, its key as a plain
/// `String` token immediately followed by the value's `SubStream`.
pub open spec fn obj_tokens(entries: Seq<(Seq<char>, ValueModel)>) -> Seq<TokenModel>
    decreases entries,
{
    if entries.len() == 0 {
        Seq::empty()
    } else {
        obj_tokens(entries.drop_last()) + seq![
            TokenModel::String(entries.last().0),
            TokenModel::SubStream(encoding(entries.last().1)),
        ]
    }
}

/// The wire representation of a value: an atom is a single token; a
/// composite is its start delimiter, its entry count, its body, and its end
/// delimiter.  Every child travels inside its own `SubStream`.
pub open spec fn encoding(v: ValueModel) -> Seq<TokenModel>
    decreases v,
{
    match v {
        ValueModel::Number(n) => seq![TokenModel::Number(n)],
        ValueModel::String(s) => seq![TokenModel::String(s)],
        ValueModel::Boolean(b) => seq![TokenModel::Boolean(b)],
        ValueModel::Null => seq![TokenModel::Null],
        ValueModel::Array(els) => seq![
            TokenModel::ArrayStart,
            TokenModel::Length(els.len() as int),
        ] + arr_tokens(els) + seq![TokenModel::ArrayEnd],
        ValueModel::Object(entries) => seq![
            TokenModel::ObjectStart,
            TokenModel::Length(entries.len() as int),
        ] + obj_tokens(entries) + seq![TokenModel::ObjectEnd],
    }
}

pub proof fn lemma_arr_tokens_len(els: Seq<ValueModel>)
    ensures
        arr_tokens(els).len() == els.len(),
    decreases els.len(),
{
    if els.len() > 0 {
        lemma_arr_tokens_len(els.drop_last());
    }
}

pub proof fn lemma_arr_tokens_index(els: Seq<ValueModel>, i: int)
    requires
        0 <= i < els.len(),
    ensures
        arr_tokens(els).len() == els.len(),
        arr_tokens(els)[i] == TokenModel::SubStream(encoding(els[i])),
    decreases els.len(),
{
    lemma_arr_tokens_len(els);
    if i < els.len() - 1 {
        lemma_arr_tokens_index(els.drop_last(), i);
    }
}

pub proof fn lemma_obj_tokens_len(entries: Seq<(Seq<char>, ValueModel)>)
    ensures
        obj_tokens(entries).len() == 2 * entries.len(),
    decreases entries.len(),
{
    if entries.len() > 0 {
        lemma_obj_tokens_len(entries.drop_last());
    }
}

pub proof fn lemma_obj_tokens_index(entries: Seq<(Seq<char>, ValueModel)>, i: int)
    requires
        0 <= i < entries.len(),
    ensures
        obj_tokens(entries).len() == 2 * entries.len(),
        obj_tokens(entries)[2 * i] == TokenModel::String(entries[i].0),
        obj_tokens(entries)[2 * i + 1] == TokenModel::SubStream(encoding(entries[i].1)),
    decreases entries.len(),
{
    lemma_obj_tokens_len(entries);
    if i < entries.len() - 1 {
        lemma_obj_tokens_index(entries.drop_last(), i);
    }
}

/// Walks the value depth-first and emits its token stream; every composite
/// child is encoded into a fresh nested stream carried by a `SubStream`
/// token.  The output is exactly the wire grammar of the value.
#[verifier::loop_isolation(false)]
#[verifier::rlimit(50)]
pub fn encode(v: &Value) -> (out: Vec<Token>)
    ensures
        stream_view(out@) == encoding(v@),
    decreases v,
{
    broadcast use lemma_stream_view_push;

    match v {
        Value::Number(n) => {
            let mut out: Vec<Token> = Vec::new();
            out.push(Token::Number(*n));
            proof {
                assert(stream_view(out@) =~= encoding(v@));
            }
            out
        },
        Value::String(s) => {
            let mut out: Vec<Token> = Vec::new();
            out.push(Token::String(s.clone()));
            proof {
                assert(stream_view(out@) =~= encoding(v@));
            }
            out
        },
        Value::Boolean(b) => {
            let mut out: Vec<Token> = Vec::new();
            out.push(Token::Boolean(*b));
            proof {
                assert(stream_view(out@) =~= encoding(v@));
            }
            out
        },
        Value::Null => {
            let mut out: Vec<Token> = Vec::new();
            out.push(Token::Null);
            proof {
                assert(stream_view(out@) =~= encoding(v@));
            }
            out
        },
        Value::Array(els) => {
            let n = els.len();
            let mut out: Vec<Token> = Vec::new();
            out.push(Token::ArrayStart);
            out.push(Token::Length(n));
            let ghost head = seq![TokenModel::ArrayStart, TokenModel::Length(n as int)];
            let ghost model_els = v@->Array_0;
            proof {
                lemma_model_of_values_len(els@);
                assert(model_els.len() == n);
                assert forall|j: int| 0 <= j < n implies model_els[j] == els@[j]@ by {
                    lemma_model_of_values_index(els@, j);
                }
                assert(stream_view(out@) =~= head + arr_tokens(model_els.take(0)));
            }
            for i in 0..n
                invariant
                    n == els@.len(),
                    model_els == v@->Array_0,
                    model_els.len() == n,
                    forall|j: int| 0 <= j < n ==> model_els[j] == els@[j]@,
                    head == seq![TokenModel::ArrayStart, TokenModel::Length(n as int)],
                    stream_view(out@) == head + arr_tokens(model_els.take(i as int)),
                decreases n - i,
            {
                let sub = encode(&els[i]);
                out.push(Token::SubStream(sub));
                proof {
                    let pre = model_els.take(i as int);
                    let cur = model_els.take(i + 1);
                    assert(cur.drop_last() =~= pre);
                    assert(cur.last() == model_els[i as int]);
                    assert(Token::SubStream(sub)@->SubStream_0 =~= stream_view(sub@));
                    assert(stream_view(out@) =~= head + arr_tokens(cur));
                }
            }
            out.push(Token::ArrayEnd);
            proof {
                assert(model_els.take(n as int) =~= model_els);
                assert(stream_view(out@) =~= encoding(v@));
            }
            out
        },
        Value::Object(entries) => {
            let n = entries.len();
            let mut out: Vec<Token> = Vec::new();
            out.push(Token::ObjectStart);
            out.push(Token::Length(n));
            let ghost head = seq![TokenModel::ObjectStart, TokenModel::Length(n as int)];
            let ghost model_es = v@->Object_0;
            proof {
                lemma_model_of_entries_len(entries@);
                assert(model_es.len() == n);
                assert forall|j: int| 0 <= j < n implies #[trigger] model_es[j] == (
                    entries@[j].0@,
                    entries@[j].1@,
                ) by {
                    lemma_model_of_entries_index(entries@, j);
                }
                assert(stream_view(out@) =~= head + obj_tokens(model_es.take(0)));
            }
            for i in 0..n
                invariant
                    n == entries@.len(),
                    model_es == v@->Object_0,
                    model_es.len() == n,
                    forall|j: int|
                        0 <= j < n ==> #[trigger] model_es[j] == (entries@[j].0@, entries@[j].1@),
                    head == seq![TokenModel::ObjectStart, TokenModel::Length(n as int)],
                    stream_view(out@) == head + obj_tokens(model_es.take(i as int)),
                decreases n - i,
            {
                let key = entries[i].0.clone();
                out.push(Token::String(key));
                let sub = encode(&entries[i].1);
                out.push(Token::SubStream(sub));
                proof {
                    let pre = model_es.take(i as int);
                    let cur = model_es.take(i + 1);
                    assert(cur.drop_last() =~= pre);
                    assert(cur.last() == model_es[i as int]);
                    assert(Token::SubStream(sub)@->SubStream_0 =~= stream_view(sub@));
                    assert(stream_view(out@) =~= head + obj_tokens(cur));
                }
            }
            out.push(Token::ObjectEnd);
            proof {
                assert(model_es.take(n as int) =~= model_es);
                assert(stream_view(out@) =~= encoding(v@));
            }
            out
        },
    }
}

} // verus!
