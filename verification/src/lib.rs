//! A streaming projection library for tree-shaped structured values.
//!
//! A [`value::Value`] is linearized into a stream of [`token::Token`]s in
//! which every composite child travels as its own nested sub-stream.  The
//! encoder produces such a stream, the evaluator applies an
//! [`eval::Accessor`] to it (forwarding selected children and draining
//! discarded ones), and the decoder rebuilds a concrete value from the
//! result.  Every stage is specified against ghost models of values and
//! tokens, so the protocol grammar and the projection semantics are proved,
//! not just tested.

pub mod decode;
pub mod drain;
pub mod encode;
pub mod eval;
pub mod laws;
pub mod token;
pub mod value;

use vstd::prelude::*;

use crate::decode::{decode, decode_spec};
use crate::encode::{encode, encoding};
use crate::eval::{eval, eval_spec, Accessor};
use crate::token::Error;
use crate::value::Value;

verus! {

/// The pipeline entry point: encodes the source value, applies the accessor
/// to the token stream, and decodes the projected result.  On success the
/// result is exactly the value that the evaluator's output stream describes.
pub fn project(v: &Value, acc: &Accessor) -> (r: Result<Value, Error>)
    ensures
        r is Ok <==> (eval_spec(*acc, encoding(v@)) is Some && decode_spec(
            eval_spec(*acc, encoding(v@))->Some_0,
        ) is Some),
        r matches Ok(w) ==> decode_spec(eval_spec(*acc, encoding(v@))->Some_0) == Some(w@)
            && crate::value::wf(w@),
{
    let toks = encode(v);
    match eval(acc, &toks) {
        Ok(out) => decode(&out),
        Err(e) => Err(e),
    }
}

} // verus!
