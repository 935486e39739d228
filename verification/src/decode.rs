//! The consumer stage: rebuilding a value from a token stream.
//!
//! A stream is accepted exactly when it matches the protocol grammar: a
//! single atom token, or a bracketed composite whose announced length equals
//! the number of child slots that follow.  A child slot is either a
//! `SubStream` (decoded recursively) or a bare atom token — the latter is
//! how the mapping accessor delivers its per-element results.  Object keys
//! must arrive in strictly ascending order: the protocol transmits entries
//! in one fixed, reproducible order, and a stream that breaks it is rejected
//! as a protocol violation, so every decoded value is well formed.

use vstd::prelude::*;

use crate::token::{stream_view, Error, Token, TokenModel};
use crate::value::{
    lemma_model_of_entries_index, lemma_wf_entries_index, model_of_entries, model_of_values,
    seq_lt, str_lt, wf, wf_entries, wf_values, Value, ValueModel,
};

verus! {

broadcast use vstd::std_specs::vec::group_vec_axioms;

/// The value of a single atom token, if it is one.
pub open spec fn atom_value(t: TokenModel) -> Option<ValueModel> {
    match t {
        TokenModel::Number(n) => Some(ValueModel::Number(n)),
        TokenModel::String(s) => Some(ValueModel::String(s)),
        TokenModel::Boolean(b) => Some(ValueModel::Boolean(b)),
        TokenModel::Null => Some(ValueModel::Null),
        _ => None,
    }
}

/// The value carried by one child slot: a nested stream is decoded
/// recursively, a bare atom stands for itself, anything else is illegal.
pub open spec fn slot_value(t: TokenModel) -> Option<ValueModel>
    decreases t, 2int, 0int,
{
    match t {
        TokenModel::SubStream(sub) => decode_spec(sub),
        _ => atom_value(t),
    }
}

/// The first `k` child slots of an array-shaped stream each carry a value.
pub open spec fn arr_slots_ok(toks: Seq<TokenModel>, k: int) -> bool
    decreases toks, 0int, k,
{
    if k <= 0 {
        true
    } else if 2 + (k - 1) < toks.len() {
        arr_slots_ok(toks, k - 1) && slot_value(toks[2 + (k - 1)]) is Some
    } else {
        false
    }
}

/// The values carried by the first `k` child slots of an array-shaped stream.
pub open spec fn arr_values(toks: Seq<TokenModel>, k: int) -> Seq<ValueModel>
    decreases toks, 0int, k,
{
    if k <= 0 {
        Seq::empty()
    } else if 2 + (k - 1) < toks.len() {
        arr_values(toks, k - 1).push(slot_value(toks[2 + (k - 1)])->Some_0)
    } else {
        Seq::empty()
    }
}

/// The first `k` entries of an object-shaped stream are each a `String` key
/// followed by a slot that carries a value.
pub open spec fn obj_entries_ok(toks: Seq<TokenModel>, k: int) -> bool
    decreases toks, 0int, k,
{
    if k <= 0 {
        true
    } else if 3 + 2 * (k - 1) < toks.len() {
        obj_entries_ok(toks, k - 1) && toks[2 + 2 * (k - 1)] is String && slot_value(
            toks[3 + 2 * (k - 1)],
        ) is Some
    } else {
        false
    }
}

/// The keys of the first `k` entries of an object-shaped stream arrive in
/// strictly ascending order.
pub open spec fn obj_keys_sorted(toks: Seq<TokenModel>, k: int) -> bool
    decreases k,
{
    if k <= 1 {
        true
    } else if 4 + 2 * (k - 2) < toks.len() {
        obj_keys_sorted(toks, k - 1) && seq_lt(
            toks[2 + 2 * (k - 2)]->String_0,
            toks[4 + 2 * (k - 2)]->String_0,
        )
    } else {
        false
    }
}

/// The key/value pairs carried by the first `k` entries of an object-shaped
/// stream.
pub open spec fn obj_values(toks: Seq<TokenModel>, k: int) -> Seq<(Seq<char>, ValueModel)>
    decreases toks, 0int, k,
{
    if k <= 0 {
        Seq::empty()
    } else if 3 + 2 * (k - 1) < toks.len() {
        obj_values(toks, k - 1).push(
            (toks[2 + 2 * (k - 1)]->String_0, slot_value(toks[3 + 2 * (k - 1)])->Some_0),
        )
    } else {
        Seq::empty()
    }
}

/// The decoder's grammar: which streams describe a value, and which value.
/// `None` means the stream violates the protocol.
pub open spec fn decode_spec(toks: Seq<TokenModel>) -> Option<ValueModel>
    decreases toks, 1int, 0int,
{
    if toks.len() == 1 {
        atom_value(toks[0])
    } else if toks.len() >= 3 && toks[0] is ArrayStart {
        let n = toks.len() - 3;
        if toks[1] == TokenModel::Length(n) && toks[toks.len() - 1] is ArrayEnd && arr_slots_ok(
            toks,
            n,
        ) {
            Some(ValueModel::Array(arr_values(toks, n)))
        } else {
            None
        }
    } else if toks.len() >= 3 && toks[0] is ObjectStart && (toks.len() - 3) % 2 == 0 {
        let n = (toks.len() - 3) / 2;
        if toks[1] == TokenModel::Length(n) && toks[toks.len() - 1] is ObjectEnd && obj_entries_ok(
            toks,
            n,
        ) && obj_keys_sorted(toks, n) {
            Some(ValueModel::Object(obj_values(toks, n)))
        } else {
            None
        }
    } else {
        None
    }
}

pub proof fn lemma_arr_slot(toks: Seq<TokenModel>, k: int, i: int)
    requires
        arr_slots_ok(toks, k),
        0 <= i < k,
    ensures
        2 + i < toks.len(),
        slot_value(toks[2 + i]) is Some,
    decreases k,
{
    if i < k - 1 {
        lemma_arr_slot(toks, k - 1, i);
    }
}

pub proof fn lemma_arr_values_len(toks: Seq<TokenModel>, k: int)
    requires
        arr_slots_ok(toks, k),
        0 <= k,
    ensures
        arr_values(toks, k).len() == k,
    decreases k,
{
    if k > 0 {
        lemma_arr_values_len(toks, k - 1);
    }
}

pub proof fn lemma_arr_values_index(toks: Seq<TokenModel>, k: int, i: int)
    requires
        arr_slots_ok(toks, k),
        0 <= i < k,
    ensures
        arr_values(toks, k).len() == k,
        arr_values(toks, k)[i] == slot_value(toks[2 + i])->Some_0,
    decreases k,
{
    lemma_arr_values_len(toks, k);
    if i < k - 1 {
        lemma_arr_values_index(toks, k - 1, i);
    }
}

pub proof fn lemma_obj_entry(toks: Seq<TokenModel>, k: int, i: int)
    requires
        obj_entries_ok(toks, k),
        0 <= i < k,
    ensures
        3 + 2 * i < toks.len(),
        toks[2 + 2 * i] is String,
        slot_value(toks[3 + 2 * i]) is Some,
    decreases k,
{
    if i < k - 1 {
        lemma_obj_entry(toks, k - 1, i);
    }
}

pub proof fn lemma_obj_sorted(toks: Seq<TokenModel>, k: int, i: int)
    requires
        obj_keys_sorted(toks, k),
        0 <= i < k - 1,
    ensures
        seq_lt(toks[2 + 2 * i]->String_0, toks[4 + 2 * i]->String_0),
    decreases k,
{
    if i < k - 2 {
        lemma_obj_sorted(toks, k - 1, i);
    }
}

pub proof fn lemma_obj_values_len(toks: Seq<TokenModel>, k: int)
    requires
        obj_entries_ok(toks, k),
        0 <= k,
    ensures
        obj_values(toks, k).len() == k,
    decreases k,
{
    if k > 0 {
        lemma_obj_values_len(toks, k - 1);
    }
}

pub proof fn lemma_obj_values_index(toks: Seq<TokenModel>, k: int, i: int)
    requires
        obj_entries_ok(toks, k),
        0 <= i < k,
    ensures
        obj_values(toks, k).len() == k,
        obj_values(toks, k)[i] == (toks[2 + 2 * i]->String_0, slot_value(toks[3 + 2 * i])->Some_0),
    decreases k,
{
    lemma_obj_values_len(toks, k);
    if i < k - 1 {
        lemma_obj_values_index(toks, k - 1, i);
    }
}

/// Every value the grammar accepts is well formed: its objects' keys are
/// strictly ascending at every nesting level, because the grammar itself
/// insists on that order on the wire.
pub proof fn lemma_decode_wf(toks: Seq<TokenModel>)
    requires
        decode_spec(toks) is Some,
    ensures
        wf(decode_spec(toks)->Some_0),
    decreases toks, 1int, 0int,
{
    if toks.len() == 1 {
    } else if toks.len() >= 3 && toks[0] is ArrayStart {
        lemma_decode_wf_arr(toks, toks.len() - 3);
    } else {
        lemma_decode_wf_obj(toks, (toks.len() - 3) / 2);
    }
}

proof fn lemma_decode_wf_slot(t: TokenModel)
    requires
        slot_value(t) is Some,
    ensures
        wf(slot_value(t)->Some_0),
    decreases t, 2int, 0int,
{
    match t {
        TokenModel::SubStream(sub) => {
            lemma_decode_wf(sub);
        },
        _ => {},
    }
}

proof fn lemma_decode_wf_arr(toks: Seq<TokenModel>, k: int)
    requires
        arr_slots_ok(toks, k),
        0 <= k,
    ensures
        wf_values(arr_values(toks, k)),
    decreases toks, 0int, k,
{
    if k > 0 {
        lemma_decode_wf_arr(toks, k - 1);
        lemma_decode_wf_slot(toks[2 + (k - 1)]);
        assert(arr_values(toks, k).drop_last() =~= arr_values(toks, k - 1));
    }
}

proof fn lemma_decode_wf_obj(toks: Seq<TokenModel>, k: int)
    requires
        obj_entries_ok(toks, k),
        obj_keys_sorted(toks, k),
        0 <= k,
    ensures
        wf_entries(obj_values(toks, k)),
    decreases toks, 0int, k,
{
    if k > 0 {
        lemma_decode_wf_obj(toks, k - 1);
        lemma_decode_wf_slot(toks[3 + 2 * (k - 1)]);
        lemma_obj_values_len(toks, k);
        assert(obj_values(toks, k).drop_last() =~= obj_values(toks, k - 1));
        if k >= 2 {
            lemma_obj_sorted(toks, k, k - 2);
            lemma_obj_values_index(toks, k, k - 2);
            lemma_obj_values_index(toks, k, k - 1);
        }
    }
}

/// Consumes exactly one logical value's worth of tokens and rebuilds the
/// value.  Succeeds exactly on the streams the grammar accepts, and then
/// returns exactly the value the grammar assigns; anything else is a
/// `ProtocolViolation`.
#[verifier::loop_isolation(false)]
#[verifier::rlimit(100)]
pub fn decode(toks: &Vec<Token>) -> (r: Result<Value, Error>)
    ensures
        r is Ok <==> decode_spec(stream_view(toks@)) is Some,
        r matches Ok(v) ==> decode_spec(stream_view(toks@)) == Some(v@) && wf(v@),
        r matches Err(e) ==> e == Error::ProtocolViolation,
    decreases toks,
{
    let ghost s = stream_view(toks@);
    let len = toks.len();
    if len == 1 {
        proof {
            if decode_spec(s) is Some {
                lemma_decode_wf(s);
            }
        }
        match &toks[0] {
            Token::Number(x) => Ok(Value::Number(*x)),
            Token::String(st) => Ok(Value::String(st.clone())),
            Token::Boolean(b) => Ok(Value::Boolean(*b)),
            Token::Null => Ok(Value::Null),
            _ => Err(Error::ProtocolViolation),
        }
    } else if len >= 3 {
        match &toks[0] {
            Token::ArrayStart => {
                let n: usize = match &toks[1] {
                    Token::Length(m) => *m,
                    _ => {
                        return Err(Error::ProtocolViolation);
                    },
                };
                if n != len - 3 {
                    return Err(Error::ProtocolViolation);
                }
                match &toks[len - 1] {
                    Token::ArrayEnd => {},
                    _ => {
                        return Err(Error::ProtocolViolation);
                    },
                }
                let mut vals: Vec<Value> = Vec::new();
                for i in 0..n
                    invariant
                        vals@.len() == i,
                        arr_slots_ok(s, i as int),
                        model_of_values(vals@) == arr_values(s, i as int),
                    decreases n - i,
                {
                    let v = match &toks[2 + i] {
                        Token::SubStream(sub) => {
                            proof {
                                assert(s[2 + i as int]->SubStream_0 =~= stream_view(sub@));
                            }
                            match decode(sub) {
                                Ok(v) => v,
                                Err(e) => {
                                    proof {
                                        if arr_slots_ok(s, n as int) {
                                            lemma_arr_slot(s, n as int, i as int);
                                            assert(false);
                                        }
                                    }
                                    return Err(e);
                                },
                            }
                        },
                        Token::Number(x) => Value::Number(*x),
                        Token::String(st) => Value::String(st.clone()),
                        Token::Boolean(b) => Value::Boolean(*b),
                        Token::Null => Value::Null,
                        _ => {
                            proof {
                                if arr_slots_ok(s, n as int) {
                                    lemma_arr_slot(s, n as int, i as int);
                                    assert(false);
                                }
                            }
                            return Err(Error::ProtocolViolation);
                        },
                    };
                    proof {
                        assert(slot_value(s[2 + i as int]) is Some);
                        assert(v@ == slot_value(s[2 + i as int])->Some_0);
                        assert(arr_slots_ok(s, i + 1));
                        assert(vals@.push(v).drop_last() =~= vals@);
                        assert(model_of_values(vals@.push(v)) == arr_values(s, i + 1));
                    }
                    vals.push(v);
                }
                let res = Value::Array(vals);
                proof {
                    assert(decode_spec(s) is Some);
                    assert(res@->Array_0 == decode_spec(s)->Some_0->Array_0);
                    lemma_decode_wf(s);
                }
                Ok(res)
            },
            Token::ObjectStart => {
                if (len - 3) % 2 != 0 {
                    return Err(Error::ProtocolViolation);
                }
                let n: usize = match &toks[1] {
                    Token::Length(m) => *m,
                    _ => {
                        return Err(Error::ProtocolViolation);
                    },
                };
                if n != (len - 3) / 2 {
                    return Err(Error::ProtocolViolation);
                }
                match &toks[len - 1] {
                    Token::ObjectEnd => {},
                    _ => {
                        return Err(Error::ProtocolViolation);
                    },
                }
                let mut entries: Vec<(String, Value)> = Vec::new();
                for i in 0..n
                    invariant
                        entries@.len() == i,
                        obj_entries_ok(s, i as int),
                        obj_keys_sorted(s, i as int),
                        model_of_entries(entries@) == obj_values(s, i as int),
                    decreases n - i,
                {
                    let key: String = match &toks[2 + 2 * i] {
                        Token::String(st) => st.clone(),
                        _ => {
                            proof {
                                if obj_entries_ok(s, n as int) {
                                    lemma_obj_entry(s, n as int, i as int);
                                    assert(false);
                                }
                            }
                            return Err(Error::ProtocolViolation);
                        },
                    };
                    if i > 0 {
                        proof {
                            lemma_model_of_entries_index(entries@, i - 1);
                            lemma_obj_values_index(s, i as int, i - 1);
                        }
                        let prev_in_order = str_lt(entries[i - 1].0.as_str(), key.as_str());
                        if !prev_in_order {
                            proof {
                                if obj_keys_sorted(s, n as int) {
                                    lemma_obj_sorted(s, n as int, i - 1);
                                    assert(false);
                                }
                            }
                            return Err(Error::ProtocolViolation);
                        }
                    }
                    let v = match &toks[2 + 2 * i + 1] {
                        Token::SubStream(sub) => {
                            proof {
                                assert(s[3 + 2 * i as int]->SubStream_0 =~= stream_view(sub@));
                            }
                            match decode(sub) {
                                Ok(v) => v,
                                Err(e) => {
                                    proof {
                                        if obj_entries_ok(s, n as int) {
                                            lemma_obj_entry(s, n as int, i as int);
                                            assert(false);
                                        }
                                    }
                                    return Err(e);
                                },
                            }
                        },
                        Token::Number(x) => Value::Number(*x),
                        Token::String(st) => Value::String(st.clone()),
                        Token::Boolean(b) => Value::Boolean(*b),
                        Token::Null => Value::Null,
                        _ => {
                            proof {
                                if obj_entries_ok(s, n as int) {
                                    lemma_obj_entry(s, n as int, i as int);
                                    assert(false);
                                }
                            }
                            return Err(Error::ProtocolViolation);
                        },
                    };
                    proof {
                        assert(s[2 + 2 * i as int] is String);
                        assert(key@ == s[2 + 2 * i as int]->String_0);
                        assert(slot_value(s[3 + 2 * i as int]) is Some);
                        assert(v@ == slot_value(s[3 + 2 * i as int])->Some_0);
                        assert(obj_entries_ok(s, i + 1));
                        assert(obj_keys_sorted(s, i + 1));
                        let p = (key, v);
                        assert(entries@.push(p).drop_last() =~= entries@);
                        assert(model_of_entries(entries@.push(p)) == obj_values(s, i + 1));
                    }
                    entries.push((key, v));
                }
                let res = Value::Object(entries);
                proof {
                    assert(decode_spec(s) is Some);
                    assert(res@->Object_0 == decode_spec(s)->Some_0->Object_0);
                    lemma_decode_wf(s);
                }
                Ok(res)
            },
            _ => Err(Error::ProtocolViolation),
        }
    } else {
        Err(Error::ProtocolViolation)
    }
}

} // verus!
