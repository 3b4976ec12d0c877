//! The JSON writer.

use searchlight::json::{escape_json, Json};

/// The spelling of a floating point number, where it is finite.
fn spelling(value: f64) -> Option<String> {
    if value.is_finite() {
        Some(format!("{}", value))
    } else {
        None
    }
}

#[test]
fn scalars_serialize_correctly() {
    assert_eq!(Json::Null.to_json_string(), "null");
    assert_eq!(Json::Bool(true).to_json_string(), "true");
    assert_eq!(Json::Bool(false).to_json_string(), "false");
    assert_eq!(Json::Int(-12).to_json_string(), "-12");
    assert_eq!(Json::Uint(42).to_json_string(), "42");
    assert_eq!(Json::Float(spelling(1.5)).to_json_string(), "1.5");
    assert_eq!(Json::Float(spelling(f64::NAN)).to_json_string(), "null");
    assert_eq!(Json::Float(spelling(f64::INFINITY)).to_json_string(), "null");
}

#[test]
fn strings_are_escaped() {
    assert_eq!(Json::string("quote\" back\\slash\n").to_json_string(), "\"quote\\\" back\\\\slash\\n\"");
    assert_eq!(Json::string("tab\there").to_json_string(), "\"tab\\there\"");
    assert_eq!(escape_json("\u{1}"), "\\u0001");
    assert_eq!(escape_json("keep ✓ ünïcode"), "keep ✓ ünïcode");
}

#[test]
fn arrays_and_objects_nest() {
    let value = Json::object(vec![
        ("path", Json::string("src/main.rs")),
        ("binary", Json::Bool(false)),
        ("ranges", Json::Array(vec![
            Json::Array(vec![Json::Uint(0), Json::Uint(3)]),
            Json::Array(vec![Json::Uint(8), Json::Uint(11)]),
        ])),
        ("nested", Json::object(vec![("empty", Json::Array(vec![]))])),
    ]);
    let expected = "{\"path\":\"src/main.rs\",\"binary\":false,\
                    \"ranges\":[[0,3],[8,11]],\
                    \"nested\":{\"empty\":[]}}";
    assert_eq!(value.to_json_string(), expected);
}

#[test]
fn object_preserves_key_order() {
    let value = Json::object(vec![
        ("z", Json::Uint(1)),
        ("a", Json::Uint(2)),
        ("m", Json::Uint(3)),
    ]);
    assert_eq!(value.to_json_string(), "{\"z\":1,\"a\":2,\"m\":3}");
}

#[test]
fn empty_containers() {
    assert_eq!(Json::Array(vec![]).to_json_string(), "[]");
    assert_eq!(Json::Object(vec![]).to_json_string(), "{}");
}

#[test]
fn every_control_character_is_escaped() {
    for code in 0u8..0x20 {
        let escaped = escape_json(&format!("a{}b", code as char));
        assert!(escaped.chars().all(|ch| ch >= ' '), "{:?}", escaped);
        assert!(escaped.starts_with("a\\") && escaped.ends_with('b'));
    }
    assert_eq!(escape_json("\u{8}\u{c}\u{1f}\u{7f}"), "\\b\\f\\u001f\u{7f}");
}

#[test]
fn values_stay_on_one_line() {
    let value = Json::object(vec![("a\nb", Json::string("c\r\nd")), ("n", Json::Int(i64::MIN))]);
    assert_eq!(value.to_json_string(), "{\"a\\nb\":\"c\\r\\nd\",\"n\":-9223372036854775808}");
    assert_eq!(Json::Uint(u64::MAX).to_json_string(), "18446744073709551615");
}
