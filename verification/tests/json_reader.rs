use qvp_core::json::JsonReader;
use qvp_core::json_value::{is_float_text, parse_value, JsonError, JsonValue};

fn string_of(b: &[u8]) -> Result<String, String> {
    let mut r = JsonReader { b, i: 0 };
    r.string()
}

#[test]
fn reads_escapes() {
    assert_eq!(string_of(r#""aق\nb""#.as_bytes()).unwrap(), "aق\nb");
}

#[test]
fn every_escape_and_surrogate_pairs() {
    assert_eq!(string_of(br#""\t\r\b\f\/\"\\x""#).unwrap(), "\t\r\u{8}\u{c}/\"\\x");
    assert_eq!(string_of(br#""\u0041\u00e9""#).unwrap(), "Aé");
    assert_eq!(string_of(br#""\ud83d\ude00!""#).unwrap(), "😀!");
    // an escape of no other meaning stands for its own byte
    assert_eq!(string_of(br#""\q""#).unwrap(), "q");
    // from_str_radix accepts a leading plus
    assert_eq!(string_of(br#""\u+041""#).unwrap(), "A");
}

#[test]
fn string_errors_name_what_stopped_them() {
    assert_eq!(string_of(b"   ").unwrap_err(), "unexpected end of JSON");
    assert_eq!(string_of(b"12").unwrap_err(), "expected a JSON string");
    assert_eq!(string_of(b"\"ab").unwrap_err(), "unterminated JSON string");
    assert_eq!(string_of(b"\"a\\").unwrap_err(), "unterminated escape");
    assert_eq!(string_of(br#""\u12""#).unwrap_err(), "short \\u");
    assert_eq!(string_of(br#""\uzzzz""#).unwrap_err(), "bad \\u");
    assert_eq!(string_of(br#""\ud83d\u12""#).unwrap_err(), "short surrogate");
    assert_eq!(string_of(br#""\ud83d\uzzzz""#).unwrap_err(), "bad \\u");
    assert_eq!(string_of(br#""\udc00""#).unwrap_err(), "bad code point");
    assert_eq!(string_of(&[0x22, 0xff, 0x22]).unwrap_err(), "bad utf8 in JSON string");
}

#[test]
fn the_reader_moves_past_what_it_reads() {
    let b = b"  \n\t\"k\" : true";
    let mut r = JsonReader { b, i: 0 };
    assert_eq!(r.peek().unwrap(), b'"');
    assert_eq!(r.i, 4);
    assert_eq!(r.string().unwrap(), "k");
    assert_eq!(r.i, 7);
    assert_eq!(r.peek().unwrap(), b':');
    r.i += 1;
    assert_eq!(r.peek().unwrap(), b't');
    assert!(!r.lit("null"));
    assert_eq!(r.i, 10);
    assert!(r.lit("true"));
    assert_eq!(r.i, 14);
    assert_eq!(r.peek().unwrap_err(), "unexpected end of JSON");
    assert!(!r.lit("true"));
}

/// The value under a key: the last member with that key, as a map built in order keeps it.
fn get<'v>(v: &'v JsonValue, key: &str) -> Option<&'v JsonValue> {
    match v {
        JsonValue::Obj(m) => m.iter().rev().find(|(k, _)| k == key).map(|(_, v)| v),
        _ => None,
    }
}

fn path<'v>(v: &'v JsonValue, dotted: &str) -> Option<&'v JsonValue> {
    let mut cur = v;
    for k in dotted.split('.') {
        cur = get(cur, k)?;
    }
    Some(cur)
}

fn num(v: Option<&JsonValue>) -> Option<f64> {
    match v {
        Some(JsonValue::Num(t)) => t.parse::<f64>().ok(),
        _ => None,
    }
}

#[test]
fn reads_the_shapes_a_catalogue_uses() {
    let v = parse_value(br#"{"assets":[{"type":"page-frames","slices":{"corner":{"w":9.4,"h":6.5}},"license":{"redistributable":false}}],"n":3}"#).unwrap();
    assert_eq!(num(get(&v, "n")), Some(3.0));
    let a = match get(&v, "assets").unwrap() {
        JsonValue::Arr(items) => &items[0],
        _ => panic!("assets is no array"),
    };
    assert!(matches!(get(a, "type"), Some(JsonValue::Str(s)) if s == "page-frames"));
    assert_eq!(num(path(a, "slices.corner.w")), Some(9.4));
    assert!(matches!(path(a, "license.redistributable"), Some(JsonValue::Bool(false))));
    assert_eq!(num(path(a, "slices.nope.w")), None);
}

#[test]
fn values_keep_members_in_order_and_numbers_as_text() {
    let v = parse_value(b" { \"a\" : [1, -2.5e3, true, null, \"x\"], \"a\": {} } ").unwrap();
    match v {
        JsonValue::Obj(m) => {
            assert_eq!(m.len(), 2);
            assert_eq!(m[0].0, "a");
            match &m[0].1 {
                JsonValue::Arr(items) => {
                    assert!(matches!(&items[0], JsonValue::Num(t) if t == "1"));
                    assert!(matches!(&items[1], JsonValue::Num(t) if t == "-2.5e3"));
                    assert!(matches!(items[2], JsonValue::Bool(true)));
                    assert!(matches!(items[3], JsonValue::Null));
                    assert!(matches!(&items[4], JsonValue::Str(s) if s == "x"));
                }
                _ => panic!("first member is no array"),
            }
            assert!(matches!(&m[1].1, JsonValue::Obj(inner) if inner.is_empty()));
        }
        _ => panic!("no object"),
    }
}

#[test]
fn value_errors_say_what_stopped_them() {
    assert!(matches!(parse_value(b"{\"a\" 1}"), Err(JsonError::ColonAfter(k)) if k == "a"));
    assert!(matches!(parse_value(b"{\"a\":1 2}"), Err(JsonError::CommaOrBrace(b'2'))));
    assert!(matches!(parse_value(b"[1;2]"), Err(JsonError::CommaOrBracket(b';'))));
    assert!(matches!(parse_value(b"[x]"), Err(JsonError::BadNumber)));
    assert!(matches!(parse_value(b"tru"), Err(JsonError::BadNumber)));
    assert!(matches!(parse_value(b"   "), Err(JsonError::Msg(m)) if m == "unexpected end of JSON"));
    assert!(matches!(parse_value(b"[1,"), Err(JsonError::Msg(m)) if m == "unexpected end of JSON"));
}

#[test]
fn decimal_numbers_are_what_f64_parses() {
    for t in ["0", "-1", "+2.", ".5", "1e9", "1E+2", "3.25e-1", "007"] {
        assert!(is_float_text(&t.as_bytes().to_vec()), "{t}");
        assert!(t.parse::<f64>().is_ok(), "{t}");
    }
    for t in ["", "-", ".", "e5", "1e", "1e+", "1-2", "1.2.3", "--1", "+"] {
        assert!(!is_float_text(&t.as_bytes().to_vec()), "{t}");
        assert!(t.parse::<f64>().is_err(), "{t}");
    }
}
