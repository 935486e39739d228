//! The drain: consuming one whole value's worth of tokens without building
//! anything.
//!
//! When the evaluator discards a child it must still walk that child's
//! entire sub-stream, nested sub-streams included, so that in a staged
//! pipeline the producer encoding into it is never left blocked on a handoff
//! nobody reads.  The drain applies exactly the decoder's shape checking —
//! it accepts a stream if and only if [`crate::decode::decode`] would — but
//! allocates no value.

use vstd::prelude::*;

use crate::decode::{
    arr_slots_ok, decode_spec, lemma_arr_slot, lemma_obj_entry, lemma_obj_sorted, obj_entries_ok,
    obj_keys_sorted, slot_value,
};
use crate::token::{stream_view, Error, Token, TokenModel};
use crate::value::str_lt;

verus! {

broadcast use vstd::std_specs::vec::group_vec_axioms;

/// Consumes and discards exactly one logical value: succeeds on exactly the
/// streams the decoder accepts, without reconstructing anything.
#[verifier::loop_isolation(false)]
#[verifier::rlimit(100)]
pub fn drain(toks: &Vec<Token>) -> (r: Result<(), Error>)
    ensures
        r is Ok <==> decode_spec(stream_view(toks@)) is Some,
        r matches Err(e) ==> e == Error::ProtocolViolation,
    decreases toks,
{
    let ghost s = stream_view(toks@);
    let len = toks.len();
    if len == 1 {
        match &toks[0] {
            Token::Number(_) => Ok(()),
            Token::String(_) => Ok(()),
            Token::Boolean(_) => Ok(()),
            Token::Null => Ok(()),
            _ => Err(Error::ProtocolViolation),
        }
    } else if len >= 3 {
        match &toks[0] {
            Token::ArrayStart => {
                let n: usize = match &toks[1] {
                    Token::Length(m) => *m,
                    _ => {
                        return Err(Error::ProtocolViolation);
                    },
                };
                if n != len - 3 {
                    return Err(Error::ProtocolViolation);
                }
                match &toks[len - 1] {
                    Token::ArrayEnd => {},
                    _ => {
                        return Err(Error::ProtocolViolation);
                    },
                }
                for i in 0..n
                    invariant
                        arr_slots_ok(s, i as int),
                    decreases n - i,
                {
                    match &toks[2 + i] {
                        Token::SubStream(sub) => {
                            proof {
                                assert(s[2 + i as int]->SubStream_0 =~= stream_view(sub@));
                            }
                            match drain(sub) {
                                Ok(()) => {},
                                Err(e) => {
                                    proof {
                                        if arr_slots_ok(s, n as int) {
                                            lemma_arr_slot(s, n as int, i as int);
                                            assert(false);
                                        }
                                    }
                                    return Err(e);
                                },
                            }
                        },
                        Token::Number(_) => {},
                        Token::String(_) => {},
                        Token::Boolean(_) => {},
                        Token::Null => {},
                        _ => {
                            proof {
                                if arr_slots_ok(s, n as int) {
                                    lemma_arr_slot(s, n as int, i as int);
                                    assert(false);
                                }
                            }
                            return Err(Error::ProtocolViolation);
                        },
                    }
                    proof {
                        assert(slot_value(s[2 + i as int]) is Some);
                        assert(arr_slots_ok(s, i + 1));
                    }
                }
                proof {
                    assert(decode_spec(s) is Some);
                }
                Ok(())
            },
            Token::ObjectStart => {
                if (len - 3) % 2 != 0 {
                    return Err(Error::ProtocolViolation);
                }
                let n: usize = match &toks[1] {
                    Token::Length(m) => *m,
                    _ => {
                        return Err(Error::ProtocolViolation);
                    },
                };
                if n != (len - 3) / 2 {
                    return Err(Error::ProtocolViolation);
                }
                match &toks[len - 1] {
                    Token::ObjectEnd => {},
                    _ => {
                        return Err(Error::ProtocolViolation);
                    },
                }
                for i in 0..n
                    invariant
                        obj_entries_ok(s, i as int),
                        obj_keys_sorted(s, i as int),
                    decreases n - i,
                {
                    match &toks[2 + 2 * i] {
                        Token::String(_) => {},
                        _ => {
                            proof {
                                if obj_entries_ok(s, n as int) {
                                    lemma_obj_entry(s, n as int, i as int);
                                    assert(false);
                                }
                            }
                            return Err(Error::ProtocolViolation);
                        },
                    }
                    if i > 0 {
                        let prev: &String = match &toks[2 + 2 * (i - 1)] {
                            Token::String(st) => st,
                            _ => {
                                proof {
                                    lemma_obj_entry(s, i as int, i - 1);
                                    assert(false);
                                }
                                return Err(Error::ProtocolViolation);
                            },
                        };
                        let key: &String = match &toks[2 + 2 * i] {
                            Token::String(st) => st,
                            _ => {
                                proof {
                                    assert(false);
                                }
                                return Err(Error::ProtocolViolation);
                            },
                        };
                        if !str_lt(prev.as_str(), key.as_str()) {
                            proof {
                                if obj_keys_sorted(s, n as int) {
                                    lemma_obj_sorted(s, n as int, i - 1);
                                    assert(false);
                                }
                            }
                            return Err(Error::ProtocolViolation);
                        }
                    }
                    match &toks[2 + 2 * i + 1] {
                        Token::SubStream(sub) => {
                            proof {
                                assert(s[3 + 2 * i as int]->SubStream_0 =~= stream_view(sub@));
                            }
                            match drain(sub) {
                                Ok(()) => {},
                                Err(e) => {
                                    proof {
                                        if obj_entries_ok(s, n as int) {
                                            lemma_obj_entry(s, n as int, i as int);
                                            assert(false);
                                        }
                                    }
                                    return Err(e);
                                },
                            }
                        },
                        Token::Number(_) => {},
                        Token::String(_) => {},
                        Token::Boolean(_) => {},
                        Token::Null => {},
                        _ => {
                            proof {
                                if obj_entries_ok(s, n as int) {
                                    lemma_obj_entry(s, n as int, i as int);
                                    assert(false);
                                }
                            }
                            return Err(Error::ProtocolViolation);
                        },
                    }
                    proof {
                        assert(slot_value(s[3 + 2 * i as int]) is Some);
                        assert(obj_entries_ok(s, i + 1));
                        assert(obj_keys_sorted(s, i + 1));
                    }
                }
                proof {
                    assert(decode_spec(s) is Some);
                }
                Ok(())
            },
            _ => Err(Error::ProtocolViolation),
        }
    } else {
        Err(Error::ProtocolViolation)
    }
}

} // verus!
