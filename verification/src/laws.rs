//! The protocol's laws: what holds of encoder, evaluator, decoder and drain
//! together, proved once for every well-formed value.

use vstd::prelude::*;

use crate::decode::{
    arr_slots_ok, arr_values, decode_spec, obj_entries_ok, obj_keys_sorted, obj_values,
    slot_value,
};
use crate::encode::{
    arr_tokens, encoding, lemma_arr_tokens_index, lemma_arr_tokens_len, lemma_obj_tokens_index,
    lemma_obj_tokens_len, obj_tokens,
};
use crate::eval::{
    arr_framed, arr_n, end_arr_ok, end_obj_ok, eval_spec, field_matches, field_ok, field_out,
    index_ok, lemma_field_ok_entry, lemma_index_ok_entry, obj_framed, obj_n, Accessor,
};
use crate::token::TokenModel;
use crate::value::{
    lemma_seq_lt_irreflexive, lemma_seq_lt_trans, lemma_wf_entries_index, lemma_wf_values_index,
    obj_lookup, wf, wf_entries, ValueModel,
};

verus! {

/// Round trip: decoding the encoding of any well-formed value yields that
/// value again — atoms, nested arrays and objects, empty composites alike.
pub proof fn lemma_round_trip(v: ValueModel)
    requires
        wf(v),
    ensures
        decode_spec(encoding(v)) == Some(v),
    decreases v, 1int, 0int,
{
    let toks = encoding(v);
    match v {
        ValueModel::Array(els) => {
            let n = els.len() as int;
            lemma_arr_tokens_len(els);
            assert(toks.len() == n + 3);
            assert(toks[0] == TokenModel::ArrayStart);
            assert(toks[1] == TokenModel::Length(n));
            assert(toks[toks.len() - 1] == TokenModel::ArrayEnd);
            lemma_round_trip_arr(v, els, n);
            assert(els.take(n) =~= els);
            assert(decode_spec(toks) == Some(ValueModel::Array(arr_values(toks, n))));
        },
        ValueModel::Object(entries) => {
            let n = entries.len() as int;
            lemma_obj_tokens_len(entries);
            assert(toks.len() == 2 * n + 3);
            assert(toks[0] == TokenModel::ObjectStart);
            assert(toks[1] == TokenModel::Length(n));
            assert(toks[toks.len() - 1] == TokenModel::ObjectEnd);
            assert((toks.len() - 3) % 2 == 0 && (toks.len() - 3) / 2 == n);
            lemma_round_trip_obj(v, entries, n);
            assert(entries.take(n) =~= entries);
            assert(decode_spec(toks) == Some(ValueModel::Object(obj_values(toks, n))));
        },
        _ => {
            assert(toks.len() == 1);
        },
    }
}

proof fn lemma_round_trip_arr(v: ValueModel, els: Seq<ValueModel>, k: int)
    requires
        v == ValueModel::Array(els),
        wf(v),
        0 <= k <= els.len(),
    ensures
        arr_slots_ok(encoding(v), k),
        arr_values(encoding(v), k) == els.take(k),
    decreases v, 0int, k,
{
    let toks = encoding(v);
    lemma_arr_tokens_len(els);
    if k > 0 {
        lemma_round_trip_arr(v, els, k - 1);
        lemma_arr_tokens_index(els, k - 1);
        assert(toks[2 + (k - 1)] == arr_tokens(els)[k - 1]);
        lemma_wf_values_index(els, k - 1);
        lemma_round_trip(els[k - 1]);
        assert(slot_value(toks[2 + (k - 1)]) == Some(els[k - 1]));
        assert(els.take(k).drop_last() =~= els.take(k - 1));
        assert(arr_values(toks, k) =~= els.take(k));
    } else {
        assert(arr_values(toks, 0) =~= els.take(0));
    }
}

proof fn lemma_round_trip_obj(v: ValueModel, es: Seq<(Seq<char>, ValueModel)>, k: int)
    requires
        v == ValueModel::Object(es),
        wf(v),
        0 <= k <= es.len(),
    ensures
        obj_entries_ok(encoding(v), k),
        obj_keys_sorted(encoding(v), k),
        obj_values(encoding(v), k) == es.take(k),
    decreases v, 0int, k,
{
    let toks = encoding(v);
    lemma_obj_tokens_len(es);
    if k > 0 {
        lemma_round_trip_obj(v, es, k - 1);
        lemma_obj_tokens_index(es, k - 1);
        assert(toks[2 + 2 * (k - 1)] == obj_tokens(es)[2 * (k - 1)]);
        assert(toks[3 + 2 * (k - 1)] == obj_tokens(es)[2 * (k - 1) + 1]);
        lemma_wf_entries_index(es, k - 1);
        lemma_round_trip(es[k - 1].1);
        assert(slot_value(toks[3 + 2 * (k - 1)]) == Some(es[k - 1].1));
        if k >= 2 {
            lemma_obj_tokens_index(es, k - 2);
            assert(toks[2 + 2 * (k - 2)] == obj_tokens(es)[2 * (k - 2)]);
            lemma_wf_entries_index(es, k - 2);
            assert(toks[4 + 2 * (k - 2)] == toks[2 + 2 * (k - 1)]);
        }
        assert(es.take(k).drop_last() =~= es.take(k - 1));
        assert(obj_values(toks, k) =~= es.take(k));
    } else {
        assert(obj_values(toks, 0) =~= es.take(0));
    }
}

/// Every sub-stream an evaluator discards can be consumed in full: the
/// encoding of any well-formed value is accepted by the drain (and the
/// decoder), so no producer is ever left blocked on a discarded branch.
pub proof fn lemma_encoding_drains(v: ValueModel)
    requires
        wf(v),
    ensures
        decode_spec(encoding(v)) is Some,
{
    lemma_round_trip(v);
}

proof fn lemma_end_arr_enc(els: Seq<ValueModel>, k: int)
    requires
        0 <= k <= els.len(),
    ensures
        end_arr_ok(encoding(ValueModel::Array(els)), k),
    decreases k,
{
    let toks = encoding(ValueModel::Array(els));
    lemma_arr_tokens_len(els);
    if k > 0 {
        lemma_end_arr_enc(els, k - 1);
        lemma_arr_tokens_index(els, k - 1);
        assert(toks[2 + (k - 1)] == arr_tokens(els)[k - 1]);
    }
}

proof fn lemma_end_obj_enc(es: Seq<(Seq<char>, ValueModel)>, k: int)
    requires
        0 <= k <= es.len(),
    ensures
        end_obj_ok(encoding(ValueModel::Object(es)), k),
    decreases k,
{
    let toks = encoding(ValueModel::Object(es));
    lemma_obj_tokens_len(es);
    if k > 0 {
        lemma_end_obj_enc(es, k - 1);
        lemma_obj_tokens_index(es, k - 1);
        assert(toks[2 + 2 * (k - 1)] == obj_tokens(es)[2 * (k - 1)]);
        assert(toks[3 + 2 * (k - 1)] == obj_tokens(es)[2 * (k - 1) + 1]);
    }
}

/// Projection identity: the terminal accessor passes the encoding of any
/// value through unchanged, and decoding it yields the value again when it
/// is well formed.
pub proof fn lemma_projection_identity(v: ValueModel)
    requires
        wf(v),
    ensures
        eval_spec(Accessor::End, encoding(v)) == Some(encoding(v)),
        decode_spec(encoding(v)) == Some(v),
{
    let toks = encoding(v);
    lemma_round_trip(v);
    match v {
        ValueModel::Array(els) => {
            let n = els.len() as int;
            lemma_arr_tokens_len(els);
            assert(toks[0] == TokenModel::ArrayStart);
            assert(toks[1] == TokenModel::Length(n));
            assert(toks[toks.len() - 1] == TokenModel::ArrayEnd);
            assert(arr_framed(toks) && arr_n(toks) == n);
            lemma_end_arr_enc(els, n);
        },
        ValueModel::Object(es) => {
            let n = es.len() as int;
            lemma_obj_tokens_len(es);
            assert(toks[0] == TokenModel::ObjectStart);
            assert(toks[1] == TokenModel::Length(n));
            assert(toks[toks.len() - 1] == TokenModel::ObjectEnd);
            assert(obj_framed(toks) && obj_n(toks) == n);
            lemma_end_obj_enc(es, n);
        },
        _ => {
            assert(toks.len() == 1);
        },
    }
}

proof fn lemma_sorted_pairwise(es: Seq<(Seq<char>, ValueModel)>, i: int, j: int)
    requires
        wf_entries(es),
        0 <= i < j < es.len(),
    ensures
        crate::value::seq_lt(es[i].0, es[j].0),
    decreases j - i,
{
    lemma_wf_entries_index(es, i);
    if i + 1 < j {
        lemma_sorted_pairwise(es, i + 1, j);
        lemma_seq_lt_trans(es[i].0, es[i + 1].0, es[j].0);
    }
}

proof fn lemma_lookup_exists(es: Seq<(Seq<char>, ValueModel)>, key: Seq<char>)
    requires
        obj_lookup(es, key) is Some,
    ensures
        exists|m: int|
            0 <= m < es.len() && (#[trigger] es[m]).0 == key && es[m].1 == obj_lookup(
                es,
                key,
            )->Some_0,
    decreases es.len(),
{
    if es.len() > 0 && es[0].0 == key {
        assert(0 <= 0 < es.len() && es[0].0 == key && es[0].1 == obj_lookup(es, key)->Some_0);
    } else {
        lemma_lookup_exists(es.drop_first(), key);
        let m0 = choose|m: int|
            0 <= m < es.drop_first().len() && (#[trigger] es.drop_first()[m]).0 == key
                && es.drop_first()[m].1 == obj_lookup(es.drop_first(), key)->Some_0;
        assert(es.drop_first()[m0] == es[m0 + 1]);
        assert(0 <= m0 + 1 < es.len() && es[m0 + 1].0 == key && es[m0 + 1].1 == obj_lookup(
            es,
            key,
        )->Some_0);
    }
}

proof fn lemma_index_step_ok(v: ValueModel, els: Seq<ValueModel>, idx: int, next: Accessor, k: int)
    requires
        v == ValueModel::Array(els),
        wf(v),
        0 <= idx < els.len(),
        eval_spec(next, encoding(els[idx])) is Some,
        0 <= k <= els.len(),
    ensures
        index_ok(idx, next, encoding(v), k),
    decreases v, 0int, k,
{
    let toks = encoding(v);
    lemma_arr_tokens_len(els);
    if k > 0 {
        lemma_index_step_ok(v, els, idx, next, k - 1);
        lemma_arr_tokens_index(els, k - 1);
        assert(toks[2 + (k - 1)] == arr_tokens(els)[k - 1]);
        if k - 1 != idx {
            lemma_wf_values_index(els, k - 1);
            lemma_round_trip(els[k - 1]);
        }
    }
}

/// Composition step for index selection: applying `Index(i, rest)` to the
/// encoding of a well-formed array whose length exceeds `i` gives the same
/// outcome as applying `rest` directly to the encoding of element `i`.
pub proof fn lemma_index_step(acc: Accessor, v: ValueModel)
    requires
        acc is Index,
        wf(v),
        v is Array,
        (acc->Index_0 as int) < v->Array_0.len(),
    ensures
        eval_spec(acc, encoding(v)) == eval_spec(
            *acc->Index_1,
            encoding(v->Array_0[acc->Index_0 as int]),
        ),
{
    let els = v->Array_0;
    let idx = acc->Index_0 as int;
    let next = *acc->Index_1;
    let toks = encoding(v);
    let n = els.len() as int;
    lemma_arr_tokens_len(els);
    assert(toks[0] == TokenModel::ArrayStart);
    assert(toks[1] == TokenModel::Length(n));
    assert(toks[toks.len() - 1] == TokenModel::ArrayEnd);
    assert(arr_framed(toks) && arr_n(toks) == n);
    lemma_arr_tokens_index(els, idx);
    assert(toks[2 + idx] == arr_tokens(els)[idx]);
    let e = eval_spec(next, encoding(els[idx]));
    if e is Some {
        lemma_index_step_ok(v, els, idx, next, n);
        assert(eval_spec(acc, toks) == eval_spec(next, toks[2 + idx]->SubStream_0));
    } else {
        if index_ok(idx, next, toks, n) {
            lemma_index_ok_entry(idx, next, toks, n, idx);
            assert(false);
        }
        assert(eval_spec(acc, toks) is None);
    }
}

proof fn lemma_field_step_ok(
    v: ValueModel,
    es: Seq<(Seq<char>, ValueModel)>,
    name: Seq<char>,
    next: Accessor,
    m: int,
    k: int,
)
    requires
        v == ValueModel::Object(es),
        wf(v),
        0 <= m < es.len(),
        es[m].0 == name,
        forall|j: int| 0 <= j < es.len() && j != m ==> (#[trigger] es[j]).0 != name,
        eval_spec(next, encoding(es[m].1)) is Some,
        0 <= k <= es.len(),
    ensures
        field_ok(name, next, encoding(v), k),
        field_matches(name, encoding(v), k) == (k > m),
        field_out(name, next, encoding(v), k) == (if k > m {
            eval_spec(next, encoding(es[m].1))->Some_0
        } else {
            Seq::<TokenModel>::empty()
        }),
    decreases v, 0int, k,
{
    let toks = encoding(v);
    lemma_obj_tokens_len(es);
    if k > 0 {
        lemma_field_step_ok(v, es, name, next, m, k - 1);
        lemma_obj_tokens_index(es, k - 1);
        assert(toks[2 + 2 * (k - 1)] == obj_tokens(es)[2 * (k - 1)]);
        assert(toks[3 + 2 * (k - 1)] == obj_tokens(es)[2 * (k - 1) + 1]);
        if k - 1 == m {
            assert(field_out(name, next, toks, k) =~= eval_spec(next, encoding(es[m].1))->Some_0);
        } else {
            assert(es[k - 1].0 != name);
            lemma_wf_entries_index(es, k - 1);
            lemma_round_trip(es[k - 1].1);
            assert(field_out(name, next, toks, k) =~= field_out(name, next, toks, k - 1));
        }
    }
}

/// Composition step for field selection: applying `Field(name, rest)` to
/// the encoding of a well-formed object that stores `w` under `name` gives
/// the same outcome as applying `rest` directly to the encoding of `w`.
/// Chaining selections is therefore the same as selecting stage by stage.
pub proof fn lemma_field_step(acc: Accessor, v: ValueModel)
    requires
        acc is Field,
        wf(v),
        v is Object,
        obj_lookup(v->Object_0, acc->Field_0@) is Some,
    ensures
        eval_spec(acc, encoding(v)) == eval_spec(
            *acc->Field_1,
            encoding(obj_lookup(v->Object_0, acc->Field_0@)->Some_0),
        ),
{
    let es = v->Object_0;
    let name = acc->Field_0@;
    let next = *acc->Field_1;
    let toks = encoding(v);
    let n = es.len() as int;
    lemma_obj_tokens_len(es);
    assert(toks[0] == TokenModel::ObjectStart);
    assert(toks[1] == TokenModel::Length(n));
    assert(toks[toks.len() - 1] == TokenModel::ObjectEnd);
    assert(toks.len() == 2 * n + 3);
    assert((toks.len() - 3) % 2 == 0 && (toks.len() - 3) / 2 == n);
    assert(obj_framed(toks) && obj_n(toks) == n);
    lemma_lookup_exists(es, name);
    let m = choose|m: int|
        0 <= m < es.len() && (#[trigger] es[m]).0 == name && es[m].1 == obj_lookup(
            es,
            name,
        )->Some_0;
    assert forall|j: int| 0 <= j < es.len() && j != m implies (#[trigger] es[j]).0 != name by {
        if es[j].0 == name {
            if j < m {
                lemma_sorted_pairwise(es, j, m);
            } else {
                lemma_sorted_pairwise(es, m, j);
            }
            lemma_seq_lt_irreflexive(name);
        }
    }
    let w = es[m].1;
    let e = eval_spec(next, encoding(w));
    lemma_obj_tokens_index(es, m);
    assert(toks[2 + 2 * m] == obj_tokens(es)[2 * m]);
    assert(toks[3 + 2 * m] == obj_tokens(es)[2 * m + 1]);
    if e is Some {
        lemma_field_step_ok(v, es, name, next, m, n);
        assert(eval_spec(acc, toks) == Some(e->Some_0));
    } else {
        if field_ok(name, next, toks, n) {
            lemma_field_ok_entry(name, next, toks, n, m);
            assert(false);
        }
        assert(eval_spec(acc, toks) is None);
    }
}

} // verus!
