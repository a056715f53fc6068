use github_mcp_server::json::{encode_json, parse_json, Json};

fn parse(s: &str) -> Option<Json> {
    parse_json(&s.as_bytes().to_vec())
}

#[test]
fn parses_scalars() {
    assert_eq!(parse("null"), Some(Json::Null));
    assert_eq!(parse("true"), Some(Json::Bool(true)));
    assert_eq!(parse("false"), Some(Json::Bool(false)));
    assert_eq!(parse("0"), Some(Json::Int(0)));
    assert_eq!(parse("42"), Some(Json::Int(42)));
    assert_eq!(parse("-7"), Some(Json::Int(-7)));
    assert_eq!(parse("\"hi\""), Some(Json::Str(b"hi".to_vec())));
}

#[test]
fn parses_with_whitespace() {
    assert_eq!(parse("  null \r\n"), Some(Json::Null));
    assert_eq!(parse(" [ 1 , 2 ] "), Some(Json::Arr(vec![Json::Int(1), Json::Int(2)])));
    assert_eq!(
        parse("{ \"a\" : 1 }"),
        Some(Json::Obj(vec![(b"a".to_vec(), Json::Int(1))]))
    );
}

#[test]
fn parses_nested_structures() {
    let v = parse("{\"a\":[1,{\"b\":null}],\"c\":\"x\"}").unwrap();
    assert_eq!(
        v,
        Json::Obj(vec![
            (
                b"a".to_vec(),
                Json::Arr(vec![
                    Json::Int(1),
                    Json::Obj(vec![(b"b".to_vec(), Json::Null)]),
                ])
            ),
            (b"c".to_vec(), Json::Str(b"x".to_vec())),
        ])
    );
}

#[test]
fn parses_string_escapes() {
    assert_eq!(parse("\"a\\nb\""), Some(Json::Str(b"a\nb".to_vec())));
    assert_eq!(parse("\"q\\\"q\""), Some(Json::Str(b"q\"q".to_vec())));
    assert_eq!(parse("\"s\\\\s\""), Some(Json::Str(b"s\\s".to_vec())));
    assert_eq!(parse("\"\\u0041\""), Some(Json::Str(b"A".to_vec())));
    assert_eq!(parse("\"\\u00ff\""), Some(Json::Str(vec![0xc3, 0xbf])));
    assert_eq!(parse("\"raw\u{0009}tab\""), None);
}

#[test]
fn parses_integer_bounds() {
    assert_eq!(parse("9223372036854775807"), Some(Json::Int(i64::MAX)));
    assert_eq!(parse("-9223372036854775808"), Some(Json::Int(i64::MIN)));
    assert_eq!(
        parse("9223372036854775808"),
        Some(Json::Num(b"9223372036854775808".to_vec()))
    );
    assert_eq!(
        parse("-9223372036854775809"),
        Some(Json::Num(b"-9223372036854775809".to_vec()))
    );
}

#[test]
fn non_integer_numbers_keep_their_token_bytes() {
    assert_eq!(parse("1.5"), Some(Json::Num(b"1.5".to_vec())));
    assert_eq!(parse("-0.25"), Some(Json::Num(b"-0.25".to_vec())));
    assert_eq!(parse("1e5"), Some(Json::Num(b"1e5".to_vec())));
    assert_eq!(parse("6.02E+23"), Some(Json::Num(b"6.02E+23".to_vec())));
    let v = parse("{\"x\":1.5e-3}").unwrap();
    assert_eq!(
        v,
        Json::Obj(vec![(b"x".to_vec(), Json::Num(b"1.5e-3".to_vec()))])
    );
    let out = encode_json(&v);
    assert_eq!(String::from_utf8(out).unwrap(), "{\"x\":1.5e-3}");
    assert_eq!(parse_json(&encode_json(&v)), Some(v));
}

#[test]
fn unicode_escapes_decode_to_utf8_bytes() {
    assert_eq!(parse("\"\\u00e9\""), Some(Json::Str(vec![0xc3, 0xa9])));
    assert_eq!(parse("\"\\u20ac\""), Some(Json::Str(vec![0xe2, 0x82, 0xac])));
    assert_eq!(
        parse("\"\\ud83d\\ude00\""),
        Some(Json::Str(vec![0xf0, 0x9f, 0x98, 0x80]))
    );
    assert_eq!(parse("\"\\ud83d\""), None);
    assert_eq!(parse("\"\\ude00\""), None);
}

#[test]
fn rejects_malformed_input() {
    assert_eq!(parse(""), None);
    assert_eq!(parse("nul"), None);
    assert_eq!(parse("{\"a\":}"), None);
    assert_eq!(parse("[1,]"), None);
    assert_eq!(parse("1 2"), None);
    assert_eq!(parse("\"unterminated"), None);
    assert_eq!(parse("not json"), None);
    assert_eq!(parse("007"), None);
    assert_eq!(parse("1."), None);
    assert_eq!(parse("1e"), None);
    assert_eq!(parse("-"), None);
}

#[test]
fn encodes_canonically() {
    let v = Json::Obj(vec![
        (b"a".to_vec(), Json::Int(-3)),
        (b"b".to_vec(), Json::Arr(vec![Json::Bool(true), Json::Null])),
        (b"c".to_vec(), Json::Str(b"x\ny".to_vec())),
    ]);
    let out = encode_json(&v);
    assert_eq!(
        String::from_utf8(out).unwrap(),
        "{\"a\":-3,\"b\":[true,null],\"c\":\"x\\ny\"}"
    );
}

#[test]
fn encodes_control_bytes_as_unicode_escapes() {
    let v = Json::Str(vec![0x01, 0x1f]);
    let out = encode_json(&v);
    assert_eq!(String::from_utf8(out).unwrap(), "\"\\u0001\\u001f\"");
}

#[test]
fn encode_then_parse_round_trips() {
    let v = Json::Obj(vec![
        (b"n".to_vec(), Json::Int(i64::MIN)),
        (
            b"deep".to_vec(),
            Json::Arr(vec![
                Json::Obj(vec![(b"k\"ey".to_vec(), Json::Str(b"v\\al".to_vec()))]),
                Json::Arr(vec![]),
                Json::Obj(vec![]),
            ]),
        ),
    ]);
    let bytes = encode_json(&v);
    assert_eq!(parse_json(&bytes), Some(v));
}
