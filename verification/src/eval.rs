//! The transform stage: applying an accessor to a token stream.
//!
//! The evaluator consumes its whole input stream no matter which parts the
//! accessor keeps: a selected child is evaluated recursively onto the
//! output, every discarded sibling is drained in full.  Consuming the entire
//! shape of the value — even the parts nobody keeps — is what keeps a staged
//! pipeline free of producers blocked on handoffs nobody reads.
//!
//! A selection step applied to the wrong kind of value is a
//! [`Error::ShapeMismatch`]; selecting a key or index that does not exist is
//! reported as [`Error::NotFound`] rather than silently producing nothing.

use vstd::prelude::*;

use crate::decode::decode_spec;
use crate::drain::drain;
use crate::token::{stream_view, Error, Token, TokenModel};
use crate::value::string_eq;

verus! {

broadcast use vstd::std_specs::vec::group_vec_axioms;

/// A declarative path expression: which part of a streamed value to keep.
#[derive(Debug, PartialEq)]
pub enum Accessor {
    /// Select the object member with this key, discarding all other members,
    /// then apply the rest of the chain to it.
    Field(String, Box<Accessor>),
    /// Select the array element at this position, discarding all others,
    /// then apply the rest of the chain to it.
    Index(usize, Box<Accessor>),
    /// Apply the rest of the chain to every array element independently,
    /// producing an array of the same length.
    Each(Box<Accessor>),
    /// Terminal: keep the current value whole, forwarding composite children
    /// as unopened sub-streams.
    End,
}

/// The stream is a complete array frame: start, length, one token per child
/// slot, end.
pub open spec fn arr_framed(toks: Seq<TokenModel>) -> bool {
    &&& toks.len() >= 3
    &&& toks[0] is ArrayStart
    &&& toks[1] == TokenModel::Length(toks.len() - 3)
    &&& toks[toks.len() - 1] is ArrayEnd
}

/// The number of child slots of an array frame.
pub open spec fn arr_n(toks: Seq<TokenModel>) -> int {
    toks.len() - 3
}

/// The stream is a complete object frame: start, length, a key token and a
/// slot token per entry, end.
pub open spec fn obj_framed(toks: Seq<TokenModel>) -> bool {
    &&& toks.len() >= 3
    &&& toks[0] is ObjectStart
    &&& (toks.len() - 3) % 2 == 0
    &&& toks[1] == TokenModel::Length((toks.len() - 3) / 2)
    &&& toks[toks.len() - 1] is ObjectEnd
}

/// The number of entries of an object frame.
pub open spec fn obj_n(toks: Seq<TokenModel>) -> int {
    (toks.len() - 3) / 2
}

/// Among the first `k` object entries, some key equals `name`.
pub open spec fn field_matches(name: Seq<char>, toks: Seq<TokenModel>, k: int) -> bool
    decreases k,
{
    if k <= 0 {
        false
    } else if 3 + 2 * (k - 1) < toks.len() {
        field_matches(name, toks, k - 1) || toks[2 + 2 * (k - 1)]->String_0 == name
    } else {
        false
    }
}

/// The first `k` object entries can be processed for a field selection:
/// every key is a `String`, every child a `SubStream`; a matching child
/// evaluates under `next`, a non-matching child drains.
pub open spec fn field_ok(
    name: Seq<char>,
    next: Accessor,
    toks: Seq<TokenModel>,
    k: int,
) -> bool
    decreases next, 1int, k,
{
    if k <= 0 {
        true
    } else if 3 + 2 * (k - 1) < toks.len() {
        &&& field_ok(name, next, toks, k - 1)
        &&& toks[2 + 2 * (k - 1)] is String
        &&& toks[3 + 2 * (k - 1)] is SubStream
        &&& if toks[2 + 2 * (k - 1)]->String_0 == name {
            eval_spec(next, toks[3 + 2 * (k - 1)]->SubStream_0) is Some
        } else {
            decode_spec(toks[3 + 2 * (k - 1)]->SubStream_0) is Some
        }
    } else {
        false
    }
}

/// The concatenated outputs of the matching entries among the first `k`.
pub open spec fn field_out(
    name: Seq<char>,
    next: Accessor,
    toks: Seq<TokenModel>,
    k: int,
) -> Seq<TokenModel>
    decreases next, 1int, k,
{
    if k <= 0 {
        Seq::empty()
    } else if 3 + 2 * (k - 1) < toks.len() {
        field_out(name, next, toks, k - 1) + (if toks[2 + 2 * (k - 1)]->String_0 == name {
            eval_spec(next, toks[3 + 2 * (k - 1)]->SubStream_0)->Some_0
        } else {
            Seq::empty()
        })
    } else {
        Seq::empty()
    }
}

/// The first `k` array slots can be processed for an index selection: every
/// slot is a `SubStream`; the selected child evaluates under `next`, every
/// other child drains.
pub open spec fn index_ok(idx: int, next: Accessor, toks: Seq<TokenModel>, k: int) -> bool
    decreases next, 1int, k,
{
    if k <= 0 {
        true
    } else if 2 + (k - 1) < toks.len() {
        &&& index_ok(idx, next, toks, k - 1)
        &&& toks[2 + (k - 1)] is SubStream
        &&& if k - 1 == idx {
            eval_spec(next, toks[2 + (k - 1)]->SubStream_0) is Some
        } else {
            decode_spec(toks[2 + (k - 1)]->SubStream_0) is Some
        }
    } else {
        false
    }
}

/// The first `k` array slots can be mapped: every slot is a `SubStream`
/// whose child evaluates under `next`.
pub open spec fn map_ok(next: Accessor, toks: Seq<TokenModel>, k: int) -> bool
    decreases next, 1int, k,
{
    if k <= 0 {
        true
    } else if 2 + (k - 1) < toks.len() {
        &&& map_ok(next, toks, k - 1)
        &&& toks[2 + (k - 1)] is SubStream
        &&& eval_spec(next, toks[2 + (k - 1)]->SubStream_0) is Some
    } else {
        false
    }
}

/// The concatenated per-element outputs of mapping the first `k` slots.
pub open spec fn map_out(next: Accessor, toks: Seq<TokenModel>, k: int) -> Seq<TokenModel>
    decreases next, 1int, k,
{
    if k <= 0 {
        Seq::empty()
    } else if 2 + (k - 1) < toks.len() {
        map_out(next, toks, k - 1) + eval_spec(next, toks[2 + (k - 1)]->SubStream_0)->Some_0
    } else {
        Seq::empty()
    }
}

/// The first `k` array slots are `SubStream` tokens, as the terminal
/// accessor requires for pass-through.
pub open spec fn end_arr_ok(toks: Seq<TokenModel>, k: int) -> bool
    decreases k,
{
    if k <= 0 {
        true
    } else if 2 + (k - 1) < toks.len() {
        end_arr_ok(toks, k - 1) && toks[2 + (k - 1)] is SubStream
    } else {
        false
    }
}

/// The first `k` object entries are a `String` key and a `SubStream` slot,
/// as the terminal accessor requires for pass-through.
pub open spec fn end_obj_ok(toks: Seq<TokenModel>, k: int) -> bool
    decreases k,
{
    if k <= 0 {
        true
    } else if 3 + 2 * (k - 1) < toks.len() {
        end_obj_ok(toks, k - 1) && toks[2 + 2 * (k - 1)] is String && toks[3 + 2 * (k - 1)]
            is SubStream
    } else {
        false
    }
}

/// What the evaluator produces: the output stream of applying `acc` to the
/// input stream `toks`, or `None` if the input breaks the grammar, has the
/// wrong kind for a step, or misses the selected key or index.
pub open spec fn eval_spec(acc: Accessor, toks: Seq<TokenModel>) -> Option<Seq<TokenModel>>
    decreases acc, 0int, 0int,
{
    match acc {
        Accessor::Field(name, next) => {
            if obj_framed(toks) && field_ok(name@, *next, toks, obj_n(toks)) && field_matches(
                name@,
                toks,
                obj_n(toks),
            ) {
                Some(field_out(name@, *next, toks, obj_n(toks)))
            } else {
                None
            }
        },
        Accessor::Index(idx, next) => {
            if arr_framed(toks) && (idx as int) < arr_n(toks) && index_ok(
                idx as int,
                *next,
                toks,
                arr_n(toks),
            ) {
                eval_spec(*next, toks[2 + idx as int]->SubStream_0)
            } else {
                None
            }
        },
        Accessor::Each(next) => {
            if arr_framed(toks) && map_ok(*next, toks, arr_n(toks)) {
                Some(
                    seq![TokenModel::ArrayStart, TokenModel::Length(arr_n(toks))] + map_out(
                        *next,
                        toks,
                        arr_n(toks),
                    ) + seq![TokenModel::ArrayEnd],
                )
            } else {
                None
            }
        },
        Accessor::End => {
            if toks.len() == 1 && crate::decode::atom_value(toks[0]) is Some {
                Some(toks)
            } else if arr_framed(toks) && end_arr_ok(toks, arr_n(toks)) {
                Some(toks)
            } else if obj_framed(toks) && end_obj_ok(toks, obj_n(toks)) {
                Some(toks)
            } else {
                None
            }
        },
    }
}

pub proof fn lemma_field_ok_entry(
    name: Seq<char>,
    next: Accessor,
    toks: Seq<TokenModel>,
    k: int,
    i: int,
)
    requires
        field_ok(name, next, toks, k),
        0 <= i < k,
    ensures
        3 + 2 * i < toks.len(),
        toks[2 + 2 * i] is String,
        toks[3 + 2 * i] is SubStream,
        toks[2 + 2 * i]->String_0 == name ==> eval_spec(next, toks[3 + 2 * i]->SubStream_0)
            is Some,
        toks[2 + 2 * i]->String_0 != name ==> decode_spec(toks[3 + 2 * i]->SubStream_0) is Some,
    decreases k,
{
    if i < k - 1 {
        lemma_field_ok_entry(name, next, toks, k - 1, i);
    }
}

pub proof fn lemma_index_ok_entry(
    idx: int,
    next: Accessor,
    toks: Seq<TokenModel>,
    k: int,
    i: int,
)
    requires
        index_ok(idx, next, toks, k),
        0 <= i < k,
    ensures
        2 + i < toks.len(),
        toks[2 + i] is SubStream,
        i == idx ==> eval_spec(next, toks[2 + i]->SubStream_0) is Some,
        i != idx ==> decode_spec(toks[2 + i]->SubStream_0) is Some,
    decreases k,
{
    if i < k - 1 {
        lemma_index_ok_entry(idx, next, toks, k - 1, i);
    }
}

pub proof fn lemma_map_ok_entry(next: Accessor, toks: Seq<TokenModel>, k: int, i: int)
    requires
        map_ok(next, toks, k),
        0 <= i < k,
    ensures
        2 + i < toks.len(),
        toks[2 + i] is SubStream,
        eval_spec(next, toks[2 + i]->SubStream_0) is Some,
    decreases k,
{
    if i < k - 1 {
        lemma_map_ok_entry(next, toks, k - 1, i);
    }
}

pub proof fn lemma_end_arr_entry(toks: Seq<TokenModel>, k: int, i: int)
    requires
        end_arr_ok(toks, k),
        0 <= i < k,
    ensures
        2 + i < toks.len(),
        toks[2 + i] is SubStream,
    decreases k,
{
    if i < k - 1 {
        lemma_end_arr_entry(toks, k - 1, i);
    }
}

pub proof fn lemma_end_obj_entry(toks: Seq<TokenModel>, k: int, i: int)
    requires
        end_obj_ok(toks, k),
        0 <= i < k,
    ensures
        3 + 2 * i < toks.len(),
        toks[2 + 2 * i] is String,
        toks[3 + 2 * i] is SubStream,
    decreases k,
{
    if i < k - 1 {
        lemma_end_obj_entry(toks, k - 1, i);
    }
}


/// Field selection on one object-framed stream: the matching children are
/// evaluated under `next` onto `out`, all other children are drained.
#[verifier::loop_isolation(false)]
#[verifier::rlimit(100)]
fn eval_field(name: &String, next: &Accessor, input: &Vec<Token>, out: &mut Vec<Token>) -> (r:
    Result<(), Error>)
    ensures
        r is Ok <==> (obj_framed(stream_view(input@)) && field_ok(
            name@,
            *next,
            stream_view(input@),
            obj_n(stream_view(input@)),
        ) && field_matches(name@, stream_view(input@), obj_n(stream_view(input@)))),
        r is Ok ==> stream_view(final(out)@) == stream_view(old(out)@) + field_out(
            name@,
            *next,
            stream_view(input@),
            obj_n(stream_view(input@)),
        ),
        r matches Err(e) ==> (e == Error::ProtocolViolation || e == Error::ShapeMismatch || e
            == Error::NotFound),
        stream_view(input@).len() > 0 && !(stream_view(input@)[0] is ObjectStart) ==> r == Err::<
            (),
            Error,
        >(Error::ShapeMismatch),
        (obj_framed(stream_view(input@)) && field_ok(
            name@,
            *next,
            stream_view(input@),
            obj_n(stream_view(input@)),
        ) && !field_matches(name@, stream_view(input@), obj_n(stream_view(input@)))) ==> r
            == Err::<(), Error>(Error::NotFound),
    decreases next, 2int,
{
    let ghost s = stream_view(input@);
    let len = input.len();
    if len == 0 {
        return Err(Error::ProtocolViolation);
    }
    match &input[0] {
        Token::ObjectStart => {},
        _ => {
            return Err(Error::ShapeMismatch);
        },
    }
    if len < 3 {
        return Err(Error::ProtocolViolation);
    }
    if (len - 3) % 2 != 0 {
        return Err(Error::ProtocolViolation);
    }
    let n: usize = match &input[1] {
        Token::Length(m) => *m,
        _ => {
            return Err(Error::ProtocolViolation);
        },
    };
    if n != (len - 3) / 2 {
        return Err(Error::ProtocolViolation);
    }
    match &input[len - 1] {
        Token::ObjectEnd => {},
        _ => {
            return Err(Error::ProtocolViolation);
        },
    }
    let mut matched = false;
    for i in 0..n
        invariant
            matched == field_matches(name@, s, i as int),
            field_ok(name@, *next, s, i as int),
            stream_view(out@) == stream_view(old(out)@) + field_out(name@, *next, s, i as int),
        decreases n - i,
    {
        let key: &String = match &input[2 + 2 * i] {
            Token::String(st) => st,
            _ => {
                proof {
                    if field_ok(name@, *next, s, n as int) {
                        lemma_field_ok_entry(name@, *next, s, n as int, i as int);
                        assert(false);
                    }
                }
                return Err(Error::ProtocolViolation);
            },
        };
        let child: &Vec<Token> = match &input[2 + 2 * i + 1] {
            Token::SubStream(sub) => sub,
            _ => {
                proof {
                    if field_ok(name@, *next, s, n as int) {
                        lemma_field_ok_entry(name@, *next, s, n as int, i as int);
                        assert(false);
                    }
                }
                return Err(Error::ProtocolViolation);
            },
        };
        proof {
            assert(s[3 + 2 * i as int]->SubStream_0 =~= stream_view(child@));
        }
        let is_match = string_eq(key, name);
        if is_match {
            match eval_into(next, child, out) {
                Ok(()) => {},
                Err(e) => {
                    proof {
                        if field_ok(name@, *next, s, n as int) {
                            lemma_field_ok_entry(name@, *next, s, n as int, i as int);
                            assert(false);
                        }
                    }
                    return Err(e);
                },
            }
            matched = true;
        } else {
            match drain(child) {
                Ok(()) => {},
                Err(e) => {
                    proof {
                        if field_ok(name@, *next, s, n as int) {
                            lemma_field_ok_entry(name@, *next, s, n as int, i as int);
                            assert(false);
                        }
                    }
                    return Err(e);
                },
            }
        }
        proof {
            assert(field_ok(name@, *next, s, i + 1));
            assert(field_matches(name@, s, i + 1) == (field_matches(name@, s, i as int) || key@
                == name@));
            assert(stream_view(out@) =~= stream_view(old(out)@) + field_out(name@, *next, s, i + 1));
        }
    }
    if !matched {
        return Err(Error::NotFound);
    }
    Ok(())
}

/// Index selection on one array-framed stream: the selected child is
/// evaluated under `next` onto `out`, all other children are drained.
#[verifier::loop_isolation(false)]
#[verifier::rlimit(100)]
fn eval_index(idx: usize, next: &Accessor, input: &Vec<Token>, out: &mut Vec<Token>) -> (r: Result<
    (),
    Error,
>)
    ensures
        r is Ok <==> (arr_framed(stream_view(input@)) && (idx as int) < arr_n(stream_view(input@))
            && index_ok(
            idx as int,
            *next,
            stream_view(input@),
            arr_n(stream_view(input@)),
        ) && eval_spec(*next, stream_view(input@)[2 + idx as int]->SubStream_0) is Some),
        r is Ok ==> stream_view(final(out)@) == stream_view(old(out)@) + eval_spec(
            *next,
            stream_view(input@)[2 + idx as int]->SubStream_0,
        )->Some_0,
        r matches Err(e) ==> (e == Error::ProtocolViolation || e == Error::ShapeMismatch || e
            == Error::NotFound),
        stream_view(input@).len() > 0 && !(stream_view(input@)[0] is ArrayStart) ==> r == Err::<
            (),
            Error,
        >(Error::ShapeMismatch),
        (arr_framed(stream_view(input@)) && idx as int >= arr_n(stream_view(input@)) && index_ok(
            idx as int,
            *next,
            stream_view(input@),
            arr_n(stream_view(input@)),
        )) ==> r == Err::<(), Error>(Error::NotFound),
    decreases next, 2int,
{
    let ghost s = stream_view(input@);
    let len = input.len();
    if len == 0 {
        return Err(Error::ProtocolViolation);
    }
    match &input[0] {
        Token::ArrayStart => {},
        _ => {
            return Err(Error::ShapeMismatch);
        },
    }
    if len < 3 {
        return Err(Error::ProtocolViolation);
    }
    let n: usize = match &input[1] {
        Token::Length(m) => *m,
        _ => {
            return Err(Error::ProtocolViolation);
        },
    };
    if n != len - 3 {
        return Err(Error::ProtocolViolation);
    }
    match &input[len - 1] {
        Token::ArrayEnd => {},
        _ => {
            return Err(Error::ProtocolViolation);
        },
    }
    for j in 0..n
        invariant
            index_ok(idx as int, *next, s, j as int),
            (idx as int) < j as int ==> eval_spec(*next, s[2 + idx as int]->SubStream_0) is Some
                && stream_view(out@) == stream_view(old(out)@) + eval_spec(
                *next,
                s[2 + idx as int]->SubStream_0,
            )->Some_0,
            (idx as int) >= j as int ==> stream_view(out@) == stream_view(old(out)@),
        decreases n - j,
    {
        let child: &Vec<Token> = match &input[2 + j] {
            Token::SubStream(sub) => sub,
            _ => {
                proof {
                    if index_ok(idx as int, *next, s, n as int) {
                        lemma_index_ok_entry(idx as int, *next, s, n as int, j as int);
                        assert(false);
                    }
                }
                return Err(Error::ProtocolViolation);
            },
        };
        proof {
            assert(s[2 + j as int]->SubStream_0 =~= stream_view(child@));
        }
        if j == idx {
            match eval_into(next, child, out) {
                Ok(()) => {},
                Err(e) => {
                    proof {
                        if index_ok(idx as int, *next, s, n as int) {
                            lemma_index_ok_entry(idx as int, *next, s, n as int, j as int);
                            assert(false);
                        }
                    }
                    return Err(e);
                },
            }
        } else {
            match drain(child) {
                Ok(()) => {},
                Err(e) => {
                    proof {
                        if index_ok(idx as int, *next, s, n as int) {
                            lemma_index_ok_entry(idx as int, *next, s, n as int, j as int);
                            assert(false);
                        }
                    }
                    return Err(e);
                },
            }
        }
        proof {
            assert(index_ok(idx as int, *next, s, j + 1));
        }
    }
    if idx >= n {
        return Err(Error::NotFound);
    }
    Ok(())
}

/// Mapping over one array-framed stream: every child is evaluated under
/// `next`, the results are framed as a new array on `out`.
#[verifier::loop_isolation(false)]
#[verifier::rlimit(100)]
fn eval_each(next: &Accessor, input: &Vec<Token>, out: &mut Vec<Token>) -> (r: Result<(), Error>)
    ensures
        r is Ok <==> (arr_framed(stream_view(input@)) && map_ok(
            *next,
            stream_view(input@),
            arr_n(stream_view(input@)),
        )),
        r is Ok ==> stream_view(final(out)@) == stream_view(old(out)@) + (seq![
            TokenModel::ArrayStart,
            TokenModel::Length(arr_n(stream_view(input@))),
        ] + map_out(*next, stream_view(input@), arr_n(stream_view(input@))) + seq![
            TokenModel::ArrayEnd,
        ]),
        r matches Err(e) ==> (e == Error::ProtocolViolation || e == Error::ShapeMismatch || e
            == Error::NotFound),
        stream_view(input@).len() > 0 && !(stream_view(input@)[0] is ArrayStart) ==> r == Err::<
            (),
            Error,
        >(Error::ShapeMismatch),
    decreases next, 2int,
{
    broadcast use crate::token::lemma_stream_view_push;

    let ghost s = stream_view(input@);
    let len = input.len();
    if len == 0 {
        return Err(Error::ProtocolViolation);
    }
    match &input[0] {
        Token::ArrayStart => {},
        _ => {
            return Err(Error::ShapeMismatch);
        },
    }
    if len < 3 {
        return Err(Error::ProtocolViolation);
    }
    let n: usize = match &input[1] {
        Token::Length(m) => *m,
        _ => {
            return Err(Error::ProtocolViolation);
        },
    };
    if n != len - 3 {
        return Err(Error::ProtocolViolation);
    }
    match &input[len - 1] {
        Token::ArrayEnd => {},
        _ => {
            return Err(Error::ProtocolViolation);
        },
    }
    out.push(Token::ArrayStart);
    out.push(Token::Length(n));
    let ghost head = seq![TokenModel::ArrayStart, TokenModel::Length(n as int)];
    proof {
        assert(stream_view(out@) =~= stream_view(old(out)@) + head + map_out(*next, s, 0));
    }
    for j in 0..n
        invariant
            map_ok(*next, s, j as int),
            stream_view(out@) == stream_view(old(out)@) + head + map_out(*next, s, j as int),
        decreases n - j,
    {
        let child: &Vec<Token> = match &input[2 + j] {
            Token::SubStream(sub) => sub,
            _ => {
                proof {
                    if map_ok(*next, s, n as int) {
                        lemma_map_ok_entry(*next, s, n as int, j as int);
                        assert(false);
                    }
                }
                return Err(Error::ProtocolViolation);
            },
        };
        proof {
            assert(s[2 + j as int]->SubStream_0 =~= stream_view(child@));
        }
        match eval_into(next, child, out) {
            Ok(()) => {},
            Err(e) => {
                proof {
                    if map_ok(*next, s, n as int) {
                        lemma_map_ok_entry(*next, s, n as int, j as int);
                        assert(false);
                    }
                }
                return Err(e);
            },
        }
        proof {
            assert(map_ok(*next, s, j + 1));
            assert(stream_view(out@) =~= stream_view(old(out)@) + head + map_out(*next, s, j + 1));
        }
    }
    out.push(Token::ArrayEnd);
    proof {
        assert(stream_view(out@) =~= stream_view(old(out)@) + (head + map_out(*next, s, n as int)
            + seq![TokenModel::ArrayEnd]));
    }
    Ok(())
}

/// Terminal pass-through of one stream: after checking the top-level frame,
/// every token is forwarded unchanged, nested sub-streams unopened.
#[verifier::loop_isolation(false)]
#[verifier::rlimit(100)]
fn eval_end(input: &Vec<Token>, out: &mut Vec<Token>) -> (r: Result<(), Error>)
    ensures
        r is Ok <==> (stream_view(input@).len() == 1 && crate::decode::atom_value(
            stream_view(input@)[0],
        ) is Some || arr_framed(stream_view(input@)) && end_arr_ok(
            stream_view(input@),
            arr_n(stream_view(input@)),
        ) || obj_framed(stream_view(input@)) && end_obj_ok(
            stream_view(input@),
            obj_n(stream_view(input@)),
        )),
        r is Ok ==> stream_view(final(out)@) == stream_view(old(out)@) + stream_view(input@),
        r matches Err(e) ==> e == Error::ProtocolViolation,
{
    broadcast use crate::token::lemma_stream_view_push;

    let ghost s = stream_view(input@);
    let len = input.len();
    if len == 0 {
        return Err(Error::ProtocolViolation);
    }
    if len == 1 {
        match &input[0] {
            Token::Number(_) => {},
            Token::String(_) => {},
            Token::Boolean(_) => {},
            Token::Null => {},
            _ => {
                return Err(Error::ProtocolViolation);
            },
        }
    } else if len >= 3 {
        match &input[0] {
            Token::ArrayStart => {
                let n: usize = match &input[1] {
                    Token::Length(m) => *m,
                    _ => {
                        return Err(Error::ProtocolViolation);
                    },
                };
                if n != len - 3 {
                    return Err(Error::ProtocolViolation);
                }
                match &input[len - 1] {
                    Token::ArrayEnd => {},
                    _ => {
                        return Err(Error::ProtocolViolation);
                    },
                }
                for j in 0..n
                    invariant
                        end_arr_ok(s, j as int),
                    decreases n - j,
                {
                    match &input[2 + j] {
                        Token::SubStream(_) => {},
                        _ => {
                            proof {
                                if end_arr_ok(s, n as int) {
                                    lemma_end_arr_entry(s, n as int, j as int);
                                    assert(false);
                                }
                            }
                            return Err(Error::ProtocolViolation);
                        },
                    }
                    proof {
                        assert(end_arr_ok(s, j + 1));
                    }
                }
            },
            Token::ObjectStart => {
                if (len - 3) % 2 != 0 {
                    return Err(Error::ProtocolViolation);
                }
                let n: usize = match &input[1] {
                    Token::Length(m) => *m,
                    _ => {
                        return Err(Error::ProtocolViolation);
                    },
                };
                if n != (len - 3) / 2 {
                    return Err(Error::ProtocolViolation);
                }
                match &input[len - 1] {
                    Token::ObjectEnd => {},
                    _ => {
                        return Err(Error::ProtocolViolation);
                    },
                }
                for j in 0..n
                    invariant
                        end_obj_ok(s, j as int),
                    decreases n - j,
                {
                    match &input[2 + 2 * j] {
                        Token::String(_) => {},
                        _ => {
                            proof {
                                if end_obj_ok(s, n as int) {
                                    lemma_end_obj_entry(s, n as int, j as int);
                                    assert(false);
                                }
                            }
                            return Err(Error::ProtocolViolation);
                        },
                    }
                    match &input[2 + 2 * j + 1] {
                        Token::SubStream(_) => {},
                        _ => {
                            proof {
                                if end_obj_ok(s, n as int) {
                                    lemma_end_obj_entry(s, n as int, j as int);
                                    assert(false);
                                }
                            }
                            return Err(Error::ProtocolViolation);
                        },
                    }
                    proof {
                        assert(end_obj_ok(s, j + 1));
                    }
                }
            },
            _ => {
                return Err(Error::ProtocolViolation);
            },
        }
    } else {
        return Err(Error::ProtocolViolation);
    }
    for j in 0..len
        invariant
            stream_view(out@) == stream_view(old(out)@) + s.take(j as int),
        decreases len - j,
    {
        let t = crate::token::clone_token(&input[j]);
        out.push(t);
        proof {
            assert(s.take(j + 1).drop_last() =~= s.take(j as int));
            assert(s.take(j + 1).last() == s[j as int]);
            assert(stream_view(out@) =~= stream_view(old(out)@) + s.take(j + 1));
        }
    }
    proof {
        assert(s.take(len as int) =~= s);
    }
    Ok(())
}

/// Applies `acc` to the input stream, appending the output stream onto
/// `out`, exactly as [`eval_spec`] describes; on failure `out` may hold a
/// partial prefix, as a streaming stage would already have sent it.
#[verifier::loop_isolation(false)]
#[verifier::rlimit(60)]
pub fn eval_into(acc: &Accessor, input: &Vec<Token>, out: &mut Vec<Token>) -> (r: Result<
    (),
    Error,
>)
    ensures
        r is Ok <==> eval_spec(*acc, stream_view(input@)) is Some,
        r is Ok ==> stream_view(final(out)@) == stream_view(old(out)@) + eval_spec(
            *acc,
            stream_view(input@),
        )->Some_0,
        r matches Err(e) ==> (e == Error::ProtocolViolation || e == Error::ShapeMismatch || e
            == Error::NotFound),
        *acc is Field && stream_view(input@).len() > 0 && !(stream_view(input@)[0] is ObjectStart)
            ==> r == Err::<(), Error>(Error::ShapeMismatch),
        (*acc is Index || *acc is Each) && stream_view(input@).len() > 0 && !(stream_view(
            input@,
        )[0] is ArrayStart) ==> r == Err::<(), Error>(Error::ShapeMismatch),
        (*acc matches Accessor::Field(name, next) && obj_framed(stream_view(input@)) && field_ok(
            name@,
            *next,
            stream_view(input@),
            obj_n(stream_view(input@)),
        ) && !field_matches(name@, stream_view(input@), obj_n(stream_view(input@)))) ==> r
            == Err::<(), Error>(Error::NotFound),
        (*acc matches Accessor::Index(idx, next) && arr_framed(stream_view(input@)) && idx as int
            >= arr_n(stream_view(input@)) && index_ok(
            idx as int,
            *next,
            stream_view(input@),
            arr_n(stream_view(input@)),
        )) ==> r == Err::<(), Error>(Error::NotFound),
    decreases acc, 1int,
{
    match acc {
        Accessor::Field(name, next) => eval_field(name, &**next, input, out),
        Accessor::Index(idx, next) => eval_index(*idx, &**next, input, out),
        Accessor::Each(next) => eval_each(&**next, input, out),
        Accessor::End => eval_end(input, out),
    }
}

/// Applies the accessor to one whole input stream and returns the output
/// stream, which the decoder can consume.
pub fn eval(acc: &Accessor, input: &Vec<Token>) -> (r: Result<Vec<Token>, Error>)
    ensures
        r is Ok <==> eval_spec(*acc, stream_view(input@)) is Some,
        r matches Ok(out) ==> Some(stream_view(out@)) == eval_spec(*acc, stream_view(input@)),
        r matches Err(e) ==> (e == Error::ProtocolViolation || e == Error::ShapeMismatch || e
            == Error::NotFound),
{
    let mut out: Vec<Token> = Vec::new();
    match eval_into(acc, input, &mut out) {
        Ok(()) => {
            proof {
                assert(stream_view(out@) =~= eval_spec(*acc, stream_view(input@))->Some_0);
            }
            Ok(out)
        },
        Err(e) => Err(e),
    }
}

} // verus!
