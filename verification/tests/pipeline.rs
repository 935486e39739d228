use jstream::decode::decode;
use jstream::drain::drain;
use jstream::encode::encode;
use jstream::eval::{eval, Accessor};
use jstream::project;
use jstream::token::{Error, Token};
use jstream::value::Value;

fn s(t: &str) -> String {
    t.to_string()
}

/// The sample document the library is demonstrated on: a person record with
/// a nested address, a language list, and a list of profile objects.
fn sample() -> Value {
    let social = Value::Array(vec![
        Value::Object(vec![
            (s("link"), Value::String(s("https://twitter.com"))),
            (s("name"), Value::String(s("Twitter"))),
        ]),
        Value::Object(vec![
            (s("link"), Value::String(s("https://www.facebook.com"))),
            (s("name"), Value::String(s("Facebook"))),
        ]),
    ]);
    let address = Value::Object(vec![
        (s("Country"), Value::String(s("USA"))),
        (s("city"), Value::String(s("New York"))),
        (s("postalCode"), Value::Number(64780)),
    ]);
    let languages = Value::Array(vec![
        Value::String(s("Java")),
        Value::String(s("Node.js")),
        Value::String(s("Javascript")),
        Value::String(s("JSON")),
    ]);
    Value::Object(vec![
        (s("address"), address),
        (s("age"), Value::Number(31)),
        (s("languages"), languages),
        (s("name"), Value::String(s("Jason Ray"))),
        (s("profession"), Value::String(s("Software Engineer"))),
        (s("socialProfiles"), social),
    ])
}

fn field(name: &str, next: Accessor) -> Accessor {
    Accessor::Field(s(name), Box::new(next))
}

fn index(i: usize, next: Accessor) -> Accessor {
    Accessor::Index(i, Box::new(next))
}

fn each(next: Accessor) -> Accessor {
    Accessor::Each(Box::new(next))
}

#[test]
fn round_trip_atoms() {
    for v in [
        Value::Number(0),
        Value::Number(-7),
        Value::String(s("")),
        Value::String(s("hello")),
        Value::Boolean(true),
        Value::Boolean(false),
        Value::Null,
    ] {
        let toks = encode(&v);
        assert_eq!(decode(&toks), Ok(v));
    }
}

#[test]
fn round_trip_empty_composites() {
    for v in [Value::Array(vec![]), Value::Object(vec![])] {
        let toks = encode(&v);
        assert_eq!(decode(&toks), Ok(v));
    }
}

#[test]
fn round_trip_nested() {
    let v = Value::Array(vec![
        Value::Object(vec![
            (s("a"), Value::Array(vec![Value::Number(1), Value::Null])),
            (s("b"), Value::Object(vec![])),
        ]),
        Value::Array(vec![Value::Array(vec![Value::Boolean(false)])]),
        Value::String(s("tail")),
    ]);
    let toks = encode(&v);
    assert_eq!(decode(&toks), Ok(v));
}

#[test]
fn round_trip_sample_document() {
    let v = sample();
    let toks = encode(&v);
    assert_eq!(decode(&toks), Ok(v));
}

#[test]
fn projection_identity() {
    let v = sample();
    assert_eq!(project(&v, &Accessor::End), Ok(v));
    let atom = Value::Number(5);
    assert_eq!(project(&atom, &Accessor::End), Ok(atom));
}

#[test]
fn field_selection() {
    let v = Value::Object(vec![
        (s("a"), Value::Number(1)),
        (s("b"), Value::Array(vec![Value::Number(2), Value::Number(3)])),
    ]);
    assert_eq!(
        project(&v, &field("b", Accessor::End)),
        Ok(Value::Array(vec![Value::Number(2), Value::Number(3)]))
    );
    assert_eq!(project(&v, &field("a", Accessor::End)), Ok(Value::Number(1)));
}

#[test]
fn field_selection_missing_key() {
    let v = Value::Object(vec![
        (s("a"), Value::Number(1)),
        (s("b"), Value::Array(vec![Value::Number(2), Value::Number(3)])),
    ]);
    assert_eq!(project(&v, &field("z", Accessor::End)), Err(Error::NotFound));
}

#[test]
fn index_selection() {
    let v = Value::Array(vec![Value::Number(10), Value::Number(20), Value::Number(30)]);
    assert_eq!(project(&v, &index(1, Accessor::End)), Ok(Value::Number(20)));
    assert_eq!(project(&v, &index(0, Accessor::End)), Ok(Value::Number(10)));
    assert_eq!(project(&v, &index(2, Accessor::End)), Ok(Value::Number(30)));
}

#[test]
fn index_selection_out_of_range() {
    let v = Value::Array(vec![Value::Number(10), Value::Number(20), Value::Number(30)]);
    assert_eq!(project(&v, &index(5, Accessor::End)), Err(Error::NotFound));
}

#[test]
fn map_over_elements() {
    let v = Value::Array(vec![
        Value::Object(vec![(s("name"), Value::String(s("A")))]),
        Value::Object(vec![(s("name"), Value::String(s("B")))]),
    ]);
    assert_eq!(
        project(&v, &each(field("name", Accessor::End))),
        Ok(Value::Array(vec![Value::String(s("A")), Value::String(s("B"))]))
    );
}

#[test]
fn map_over_names_of_sample() {
    let v = sample();
    let acc = field("socialProfiles", each(field("name", Accessor::End)));
    assert_eq!(
        project(&v, &acc),
        Ok(Value::Array(vec![Value::String(s("Twitter")), Value::String(s("Facebook"))]))
    );
}

#[test]
fn composition_matches_two_stage_extraction() {
    let v = sample();
    let composed = project(&v, &field("address", field("city", Accessor::End)));
    let outer = project(&v, &field("address", Accessor::End)).unwrap();
    let two_stage = project(&outer, &field("city", Accessor::End));
    assert_eq!(composed, two_stage);
    assert_eq!(composed, Ok(Value::String(s("New York"))));
}

#[test]
fn discarding_branches_terminates() {
    // Selecting one branch forces every sibling to be drained in full; the
    // pipeline must still run to completion.
    let v = sample();
    assert_eq!(
        project(&v, &field("age", Accessor::End)),
        Ok(Value::Number(31))
    );
    let arr = Value::Array(vec![
        Value::Array(vec![Value::Number(1), Value::Number(2)]),
        Value::Object(vec![(s("k"), Value::Null)]),
        Value::Number(9),
    ]);
    assert_eq!(
        project(&arr, &index(0, Accessor::End)),
        Ok(Value::Array(vec![Value::Number(1), Value::Number(2)]))
    );
}

#[test]
fn shape_mismatch_errors() {
    let arr = Value::Array(vec![Value::Number(1)]);
    let obj = Value::Object(vec![(s("a"), Value::Number(1))]);
    assert_eq!(project(&arr, &field("a", Accessor::End)), Err(Error::ShapeMismatch));
    assert_eq!(project(&obj, &index(0, Accessor::End)), Err(Error::ShapeMismatch));
    assert_eq!(project(&obj, &each(Accessor::End)), Err(Error::ShapeMismatch));
}

#[test]
fn drain_accepts_every_encoding() {
    for v in [
        sample(),
        Value::Null,
        Value::Array(vec![]),
        Value::Object(vec![(s("x"), Value::Array(vec![Value::Number(1)]))]),
    ] {
        let toks = encode(&v);
        assert_eq!(drain(&toks), Ok(()));
    }
}

#[test]
fn protocol_violations_are_fatal() {
    // A lone delimiter is not a value.
    assert_eq!(decode(&vec![Token::ArrayStart]), Err(Error::ProtocolViolation));
    // A length that does not match the number of slots that follow.
    let bad = vec![
        Token::ArrayStart,
        Token::Length(2),
        Token::Number(1),
        Token::ArrayEnd,
    ];
    assert_eq!(decode(&bad), Err(Error::ProtocolViolation));
    assert_eq!(drain(&bad), Err(Error::ProtocolViolation));
    // A missing closing delimiter.
    let bad2 = vec![Token::ArrayStart, Token::Length(0), Token::Null];
    assert_eq!(decode(&bad2), Err(Error::ProtocolViolation));
    // An empty stream means the producer vanished.
    assert_eq!(decode(&vec![]), Err(Error::ProtocolViolation));
}

#[test]
fn decode_rejects_unsorted_object_keys() {
    // The protocol transmits object entries in ascending key order; a stream
    // that breaks the order is rejected rather than silently reordered.
    let bad = vec![
        Token::ObjectStart,
        Token::Length(2),
        Token::String(s("b")),
        Token::Null,
        Token::String(s("a")),
        Token::Null,
        Token::ObjectEnd,
    ];
    assert_eq!(decode(&bad), Err(Error::ProtocolViolation));
    assert_eq!(drain(&bad), Err(Error::ProtocolViolation));
}

#[test]
fn decode_accepts_bare_atom_slots() {
    // The mapping accessor emits plain atoms in child slots; the decoder
    // accepts them alongside sub-streams.
    let toks = vec![
        Token::ArrayStart,
        Token::Length(2),
        Token::Number(7),
        Token::String(s("x")),
        Token::ArrayEnd,
    ];
    assert_eq!(
        decode(&toks),
        Ok(Value::Array(vec![Value::Number(7), Value::String(s("x"))]))
    );
}

#[test]
fn encoder_emits_the_wire_grammar() {
    assert_eq!(encode(&Value::Number(3)), vec![Token::Number(3)]);
    assert_eq!(
        encode(&Value::Array(vec![])),
        vec![Token::ArrayStart, Token::Length(0), Token::ArrayEnd]
    );
    let one = encode(&Value::Object(vec![(s("k"), Value::Null)]));
    assert_eq!(one.len(), 5);
    assert_eq!(one[0], Token::ObjectStart);
    assert_eq!(one[1], Token::Length(1));
    assert_eq!(one[2], Token::String(s("k")));
    assert!(matches!(one[3], Token::SubStream(_)));
    assert_eq!(one[4], Token::ObjectEnd);
}

#[test]
fn eval_output_is_a_stream() {
    // The evaluator's output for a whole-value selection is the same token
    // stream it was given, sub-streams forwarded unopened.
    let v = sample();
    let toks = encode(&v);
    let out = eval(&Accessor::End, &toks).unwrap();
    assert_eq!(out.len(), toks.len());
    assert_eq!(decode(&out), Ok(v));
}

#[test]
fn string_order_is_strict_and_lexicographic() {
    assert!(jstream::value::str_lt("a", "b"));
    assert!(jstream::value::str_lt("a", "ab"));
    assert!(!jstream::value::str_lt("a", "a"));
    assert!(!jstream::value::str_lt("b", "a"));
    assert!(jstream::value::str_lt("", "a"));
    assert!(!jstream::value::str_lt("", ""));
    assert!(jstream::value::str_lt("Country", "city"));
}

#[test]
fn error_descriptions_name_the_rule() {
    assert_eq!(
        Error::ProtocolViolation.describe(),
        "token stream violates the protocol grammar"
    );
    assert_eq!(
        Error::ShapeMismatch.describe(),
        "accessor applied to a value of the wrong kind"
    );
    assert_eq!(Error::NotFound.describe(), "selected key or index does not exist");
}
