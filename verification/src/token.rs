//! The linear wire representation of a value: tokens and token streams.
//!
//! A stream is a sequence of tokens describing exactly one logical value.
//! Composite children do not appear inline: each one travels as its own
//! nested stream carried by a [`Token::SubStream`] token, so a consumer can
//! decide per child whether to read it or to drain it.

use vstd::prelude::*;

verus! {

broadcast use vstd::std_specs::vec::group_vec_axioms;

/// Ghost model of a token; sub-streams are modelled as token sequences.
pub enum TokenModel {
    Number(int),
    String(Seq<char>),
    Boolean(bool),
    Null,
    ArrayStart,
    ArrayEnd,
    ObjectStart,
    ObjectEnd,
    Length(int),
    SubStream(Seq<TokenModel>),
}

/// One unit of the wire representation.  `Length(n)` announces the number of
/// child entries of the composite just opened; `SubStream` hands over a whole
/// nested child stream.
#[derive(Debug, PartialEq)]
pub enum Token {
    Number(i64),
    String(String),
    Boolean(bool),
    Null,
    ArrayStart,
    ArrayEnd,
    ObjectStart,
    ObjectEnd,
    Length(usize),
    SubStream(Vec<Token>),
}

impl View for Token {
    type V = TokenModel;

    open spec fn view(&self) -> TokenModel
        decreases self,
    {
        match self {
            Token::Number(n) => TokenModel::Number(*n as int),
            Token::String(s) => TokenModel::String(s@),
            Token::Boolean(b) => TokenModel::Boolean(*b),
            Token::Null => TokenModel::Null,
            Token::ArrayStart => TokenModel::ArrayStart,
            Token::ArrayEnd => TokenModel::ArrayEnd,
            Token::ObjectStart => TokenModel::ObjectStart,
            Token::ObjectEnd => TokenModel::ObjectEnd,
            Token::Length(n) => TokenModel::Length(*n as int),
            Token::SubStream(sub) => TokenModel::SubStream(
                Seq::new(
                    sub@.len(),
                    |i: int|
                        if 0 <= i < sub@.len() {
                            sub@[i].view()
                        } else {
                            TokenModel::Null
                        },
                ),
            ),
        }
    }
}

/// The model of a whole stream: the sequence of its tokens' models.
pub open spec fn stream_view(ts: Seq<Token>) -> Seq<TokenModel> {
    Seq::new(ts.len(), |i: int| ts[i]@)
}

/// Why a stage aborted.  `ProtocolViolation`: a token arrived outside the
/// stream grammar.  `ShapeMismatch`: an accessor step was applied to a value
/// of the wrong kind.  `NotFound`: a selected key or index does not exist.
#[derive(Debug, PartialEq, Eq, Structural, Clone, Copy)]
pub enum Error {
    ProtocolViolation,
    ShapeMismatch,
    NotFound,
}

impl Error {
    /// A short diagnostic naming the violated rule.
    pub fn describe(&self) -> (r: &'static str)
        ensures
            r@ =~= match self {
                Error::ProtocolViolation => "token stream violates the protocol grammar"@,
                Error::ShapeMismatch => "accessor applied to a value of the wrong kind"@,
                Error::NotFound => "selected key or index does not exist"@,
            },
    {
        match self {
            Error::ProtocolViolation => "token stream violates the protocol grammar",
            Error::ShapeMismatch => "accessor applied to a value of the wrong kind",
            Error::NotFound => "selected key or index does not exist",
        }
    }
}

pub broadcast proof fn lemma_stream_view_push(ts: Seq<Token>, t: Token)
    ensures
        #[trigger] stream_view(ts.push(t)) == stream_view(ts).push(t@),
{
    assert(stream_view(ts.push(t)) =~= stream_view(ts).push(t@));
}

/// A deep copy of one token, identical on the wire.
pub fn clone_token(t: &Token) -> (r: Token)
    ensures
        r@ == t@,
    decreases t,
{
    match t {
        Token::Number(n) => Token::Number(*n),
        Token::String(s) => Token::String(s.clone()),
        Token::Boolean(b) => Token::Boolean(*b),
        Token::Null => Token::Null,
        Token::ArrayStart => Token::ArrayStart,
        Token::ArrayEnd => Token::ArrayEnd,
        Token::ObjectStart => Token::ObjectStart,
        Token::ObjectEnd => Token::ObjectEnd,
        Token::Length(n) => Token::Length(*n),
        Token::SubStream(sub) => {
            let c = clone_stream(sub);
            proof {
                assert(stream_view(c@).len() == stream_view(sub@).len());
                assert forall|i: int| 0 <= i < c@.len() implies c@[i]@ == sub@[i]@ by {
                    assert(stream_view(c@)[i] == stream_view(sub@)[i]);
                }
                assert(Token::SubStream(c)@->SubStream_0 =~= t@->SubStream_0);
            }
            Token::SubStream(c)
        },
    }
}

/// A deep copy of a whole stream, identical on the wire.
pub fn clone_stream(ts: &Vec<Token>) -> (r: Vec<Token>)
    ensures
        stream_view(r@) == stream_view(ts@),
    decreases ts,
{
    let mut r: Vec<Token> = Vec::new();
    let n = ts.len();
    for i in 0..n
        invariant
            n == ts@.len(),
            r@.len() == i,
            forall|j: int| 0 <= j < i ==> r@[j]@ == ts@[j]@,
        decreases n - i,
    {
        let c = clone_token(&ts[i]);
        r.push(c);
    }
    proof {
        assert(stream_view(r@) =~= stream_view(ts@));
    }
    r
}

} // verus!
