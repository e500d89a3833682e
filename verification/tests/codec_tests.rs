use worker_bridge::json::{encode, parse, JsonValue};

fn obj(pairs: Vec<(&str, JsonValue)>) -> JsonValue {
    JsonValue::Obj(pairs.into_iter().map(|(k, v)| (k.as_bytes().to_vec(), v)).collect())
}

fn s(text: &str) -> JsonValue {
    JsonValue::Str(text.as_bytes().to_vec())
}

fn round_trips(v: JsonValue) {
    let bytes = encode(&v);
    let back = parse(&bytes).expect("canonical encoding must parse");
    assert_eq!(back, v);
}

#[test]
fn encode_simple_object_text() {
    let v = obj(vec![("success", JsonValue::Bool(true))]);
    assert_eq!(encode(&v), b"{\"success\":true}".to_vec());
}

#[test]
fn encode_scalars_text() {
    assert_eq!(encode(&JsonValue::Null), b"null".to_vec());
    assert_eq!(encode(&JsonValue::Bool(false)), b"false".to_vec());
    assert_eq!(encode(&JsonValue::Int(0)), b"0".to_vec());
    assert_eq!(encode(&JsonValue::Int(-42)), b"-42".to_vec());
    assert_eq!(encode(&JsonValue::Int(i64::MAX)), b"9223372036854775807".to_vec());
    assert_eq!(encode(&JsonValue::Int(i64::MIN)), b"-9223372036854775808".to_vec());
}

#[test]
fn encode_string_escapes() {
    let v = s("a\"b\\c\nd");
    assert_eq!(encode(&v), b"\"a\\\"b\\\\c\\u000ad\"".to_vec());
}

#[test]
fn round_trip_scalars() {
    round_trips(JsonValue::Null);
    round_trips(JsonValue::Bool(true));
    round_trips(JsonValue::Bool(false));
    round_trips(JsonValue::Int(1234567));
    round_trips(JsonValue::Int(i64::MIN));
    round_trips(JsonValue::Int(i64::MAX));
    round_trips(s(""));
    round_trips(s("hello world"));
    round_trips(s("quote \" backslash \\ newline \n tab \t"));
}

#[test]
fn round_trip_nested() {
    let v = obj(vec![
        ("name", s("alice")),
        ("count", JsonValue::Int(3)),
        ("flags", JsonValue::Arr(vec![JsonValue::Bool(true), JsonValue::Null])),
        ("inner", obj(vec![("deep", JsonValue::Arr(vec![JsonValue::Arr(vec![])]))])),
    ]);
    round_trips(v);
}

#[test]
fn round_trip_non_ascii_bytes() {
    // UTF-8 multi-byte content passes through the codec untouched
    round_trips(s("héllo wörld ✓"));
}

#[test]
fn parse_tolerates_whitespace() {
    let v = parse(&b" { \"success\" : true , \"n\" : [ 1 , 2 ] } ".to_vec()).unwrap();
    let expected = obj(vec![
        ("success", JsonValue::Bool(true)),
        ("n", JsonValue::Arr(vec![JsonValue::Int(1), JsonValue::Int(2)])),
    ]);
    assert_eq!(v, expected);
}

#[test]
fn parse_escape_forms() {
    let v = parse(&b"\"\\u0041\\n\\t\\\"\\\\\\/\"".to_vec()).unwrap();
    assert_eq!(v, s("A\n\t\"\\/"));
}

#[test]
fn parse_rejects_garbage() {
    assert!(parse(&b"".to_vec()).is_none());
    assert!(parse(&b"nul".to_vec()).is_none());
    assert!(parse(&b"null null".to_vec()).is_none());
    assert!(parse(&b"{\"a\":}".to_vec()).is_none());
    assert!(parse(&b"{\"a\" 1}".to_vec()).is_none());
    assert!(parse(&b"[1,]".to_vec()).is_none());
    assert!(parse(&b"\"unterminated".to_vec()).is_none());
    assert!(parse(&b"not json at all".to_vec()).is_none());
}

#[test]
fn parse_int_bounds() {
    assert_eq!(parse(&b"9223372036854775807".to_vec()), Some(JsonValue::Int(i64::MAX)));
    assert_eq!(parse(&b"-9223372036854775808".to_vec()), Some(JsonValue::Int(i64::MIN)));
}

#[test]
fn numbers_beyond_i64_keep_their_lexeme() {
    assert_eq!(
        parse(&b"9223372036854775808".to_vec()),
        Some(JsonValue::Num(b"9223372036854775808".to_vec()))
    );
    assert_eq!(
        parse(&b"-9223372036854775809".to_vec()),
        Some(JsonValue::Num(b"-9223372036854775809".to_vec()))
    );
}

#[test]
fn non_integer_numbers_keep_their_lexeme() {
    assert_eq!(parse(&b"1.5".to_vec()), Some(JsonValue::Num(b"1.5".to_vec())));
    assert_eq!(parse(&b"0.0".to_vec()), Some(JsonValue::Num(b"0.0".to_vec())));
    assert_eq!(parse(&b"-2.75e10".to_vec()), Some(JsonValue::Num(b"-2.75e10".to_vec())));
    assert_eq!(parse(&b"6E+23".to_vec()), Some(JsonValue::Num(b"6E+23".to_vec())));
    assert_eq!(parse(&b"1e-3".to_vec()), Some(JsonValue::Num(b"1e-3".to_vec())));
}

#[test]
fn numeric_lexemes_round_trip() {
    round_trips(JsonValue::Num(b"1.5".to_vec()));
    round_trips(JsonValue::Num(b"-2.75e10".to_vec()));
    round_trips(JsonValue::Num(b"9223372036854775808".to_vec()));
    round_trips(obj(vec![("data", JsonValue::Num(b"0.125".to_vec()))]));
}

#[test]
fn malformed_numbers_are_rejected() {
    assert!(parse(&b"1.".to_vec()).is_none());
    assert!(parse(&b"1e".to_vec()).is_none());
    assert!(parse(&b"1e+".to_vec()).is_none());
    assert!(parse(&b".5".to_vec()).is_none());
    assert!(parse(&b"-".to_vec()).is_none());
    assert!(parse(&b"1.5.5".to_vec()).is_none());
}

#[test]
fn unicode_escapes_decode_to_utf8() {
    // one escaped code point per plane width
    assert_eq!(parse(&b"\"\\u00e9\"".to_vec()), Some(s("\u{e9}")));
    assert_eq!(parse(&b"\"\\u0159\"".to_vec()), Some(s("\u{159}")));
    assert_eq!(parse(&b"\"\\u20ac\"".to_vec()), Some(s("\u{20ac}")));
    // a surrogate pair, as Python's default JSON writer emits non-BMP text
    assert_eq!(parse(&b"\"\\ud83d\\ude00\"".to_vec()), Some(s("\u{1f600}")));
}

#[test]
fn lone_surrogates_are_rejected() {
    assert!(parse(&b"\"\\udc00\"".to_vec()).is_none());
    assert!(parse(&b"\"\\ud83dx\"".to_vec()).is_none());
    assert!(parse(&b"\"\\ud83d\\u0041\"".to_vec()).is_none());
}

#[test]
fn request_map_round_trips_through_codec() {
    let mut m = worker_bridge::payload::RequestMap::new();
    m.insert_str(b"url".to_vec(), b"https://example.org/a?b=c".to_vec());
    m.insert_int(b"limit".to_vec(), 25);
    m.insert_value(b"extra".to_vec(), JsonValue::Null);
    let expected = vec![
        (b"url".to_vec(), s("https://example.org/a?b=c")),
        (b"limit".to_vec(), JsonValue::Int(25)),
        (b"extra".to_vec(), JsonValue::Null),
    ];
    let bytes = worker_bridge::payload::encode_request(m);
    match parse(&bytes) {
        Some(JsonValue::Obj(back)) => assert_eq!(back, expected),
        other => panic!("expected an object back, got {:?}", other),
    }
}

#[test]
fn decimal_string_exact() {
    assert_eq!(worker_bridge::json::decimal_string(0), b"0".to_vec());
    assert_eq!(worker_bridge::json::decimal_string(90210), b"90210".to_vec());
}
