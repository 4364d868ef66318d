use serdejson::codec::{byte_size, from_bytes, from_text, minify, to_bytes, to_text, validate};
use serdejson::navigate;
use serdejson::navigate::{get, get_path, pointer};
use serdejson::tree::{
    count_values, depth, equals, find_paths, flatten, keys, merge, remove_nulls, sort_keys, values,
};
use serdejson::value::{JsonError, JsonValue};

fn num(i: i64) -> JsonValue {
    JsonValue::Int64(i)
}

fn text(s: &str) -> JsonValue {
    JsonValue::String(s.to_string())
}

fn obj(entries: Vec<(&str, JsonValue)>) -> JsonValue {
    JsonValue::Object(entries.into_iter().map(|(k, v)| (k.to_string(), v)).collect())
}

fn arr(items: Vec<JsonValue>) -> JsonValue {
    JsonValue::Array(items)
}

fn parse(s: &str) -> JsonValue {
    from_text(s).expect("valid JSON")
}

fn compact(v: &JsonValue) -> String {
    to_text(v, false)
}

fn path(segs: &[&str]) -> Vec<String> {
    segs.iter().map(|s| s.to_string()).collect()
}

#[test]
fn get_path_into_nested_array() {
    let v = obj(vec![("a", obj(vec![("b", arr(vec![num(1), num(2), num(3)]))]))]);
    assert_eq!(get_path(&v, &path(&["a", "b", "1"])), num(2));
}

#[test]
fn get_path_edge_cases() {
    let v = parse(r#"{"a":{"b":[1,2,3]}}"#);
    assert_eq!(get_path(&v, &path(&[])), v);
    assert_eq!(get_path(&v, &path(&["a", "b", "+2"])), num(3));
    assert_eq!(get_path(&v, &path(&["a", "b", "x"])), JsonValue::Null);
    assert_eq!(get_path(&v, &path(&["a", "b", "3"])), JsonValue::Null);
    assert_eq!(get_path(&v, &path(&["a", "zz", "0"])), JsonValue::Null);
    assert_eq!(get_path(&v, &path(&["a", "b", "0", "c"])), JsonValue::Null);
    assert_eq!(get_path(&v, &path(&["a", "b", "99999999999999999999999"])), JsonValue::Null);
}

#[test]
fn merge_nested_objects() {
    let a = parse(r#"{"a":1,"b":{"x":1}}"#);
    let b = parse(r#"{"b":{"y":2},"c":3}"#);
    let m = merge(&a, &b);
    assert_eq!(compact(&m), r#"{"a":1,"b":{"x":1,"y":2},"c":3}"#);
    assert!(equals(&m, &parse(r#"{"c":3,"b":{"y":2,"x":1},"a":1}"#)));
}

#[test]
fn merge_replaces_arrays_and_scalars() {
    let a = parse(r#"{"a":[1,2],"b":1}"#);
    let b = parse(r#"{"a":[3],"b":{"c":1}}"#);
    assert_eq!(compact(&merge(&a, &b)), r#"{"a":[3],"b":{"c":1}}"#);
    assert_eq!(merge(&num(1), &text("x")), text("x"));
}

#[test]
fn merge_with_empty_and_disjoint() {
    let a = parse(r#"{"a":1,"b":[2]}"#);
    assert_eq!(merge(&a, &obj(vec![])), a);
    let b = parse(r#"{"c":3}"#);
    assert_eq!(compact(&merge(&a, &b)), r#"{"a":1,"b":[2],"c":3}"#);
}

#[test]
fn flatten_mixed() {
    let v = parse(r#"{"a":[1,{"b":2}]}"#);
    let f = flatten(&v);
    assert_eq!(f, vec![("a[0]".to_string(), num(1)), ("a[1].b".to_string(), num(2))]);
}

#[test]
fn flatten_edges() {
    assert_eq!(flatten(&num(7)), vec![(String::new(), num(7))]);
    assert_eq!(flatten(&parse(r#"{"a":{},"b":[]}"#)), vec![]);
    let clash = parse(r#"{"a.b":1,"a":{"b":2}}"#);
    assert_eq!(flatten(&clash), vec![("a.b".to_string(), num(2))]);
    let top = parse(r#"[[true]]"#);
    assert_eq!(flatten(&top), vec![("[0][0]".to_string(), JsonValue::Bool(true))]);
}

#[test]
fn flatten_keys_resolve_by_path_and_pointer() {
    let v = parse(r#"{"a":[1,{"b":2}],"c":{"d":null}}"#);
    assert_eq!(get_path(&v, &path(&["a", "0"])), num(1));
    assert_eq!(pointer(&v, "/a/0"), num(1));
    assert_eq!(get_path(&v, &path(&["a", "1", "b"])), num(2));
    assert_eq!(pointer(&v, "/a/1/b"), num(2));
    assert_eq!(get_path(&v, &path(&["c", "d"])), JsonValue::Null);
    let f = flatten(&v);
    assert_eq!(f.len(), 3);
    assert_eq!(f[2], ("c.d".to_string(), JsonValue::Null));
}

#[test]
fn remove_nulls_nested() {
    let v = parse(r#"{"a":null,"b":[1,null,2]}"#);
    let r = remove_nulls(&v);
    assert_eq!(compact(&r), r#"{"b":[1,2]}"#);
    assert_eq!(remove_nulls(&r), r);
    assert_eq!(remove_nulls(&JsonValue::Null), JsonValue::Null);
}

#[test]
fn pointer_lookups() {
    assert_eq!(pointer(&parse(r#"{"a":{"b":5}}"#), "/a/b"), num(5));
    assert_eq!(pointer(&parse(r#"{"a":{}}"#), "/a/c"), JsonValue::Null);
}

#[test]
fn pointer_edges() {
    let v = parse(r#"{"a/b":{"~":1},"arr":[10,20],"":3}"#);
    assert_eq!(pointer(&v, ""), v);
    assert_eq!(pointer(&v, "/a~1b/~0"), num(1));
    assert_eq!(pointer(&v, "/arr/1"), num(20));
    assert_eq!(pointer(&v, "/arr/01"), JsonValue::Null);
    assert_eq!(pointer(&v, "/arr/+1"), JsonValue::Null);
    assert_eq!(pointer(&v, "/arr/-"), JsonValue::Null);
    assert_eq!(pointer(&v, "/"), num(3));
    assert_eq!(pointer(&v, "arr"), JsonValue::Null);
    assert_eq!(pointer(&v, "/arr/0/x"), JsonValue::Null);
}

#[test]
fn numeric_kinds_differ() {
    let one_float = parse("1.0");
    assert_eq!(one_float, JsonValue::Float64("1.0".to_string()));
    assert!(!equals(&num(1), &one_float));
    assert!(!equals(&num(1), &JsonValue::UInt64(1)));
    assert!(equals(&num(1), &parse("1")));
}

#[test]
fn equals_ignores_object_order_not_array_order() {
    assert!(equals(&parse(r#"{"a":1,"b":2}"#), &parse(r#"{"b":2,"a":1}"#)));
    assert!(!equals(&parse("[1,2]"), &parse("[2,1]")));
    assert!(!equals(&parse(r#"{"a":1}"#), &parse(r#"{"a":1,"b":2}"#)));
    assert!(!equals(&parse(r#"{"a":1}"#), &parse(r#"{"b":1}"#)));
    assert!(!equals(&parse("[]"), &parse("{}")));
}

#[test]
fn get_and_set() {
    let v = parse(r#"{"a":1,"b":2}"#);
    assert_eq!(get(&v, "b"), num(2));
    assert_eq!(get(&v, "z"), JsonValue::Null);
    assert_eq!(get(&parse("[1]"), "a"), JsonValue::Null);
    let replaced = navigate::set(&v, "a", text("x")).unwrap();
    assert_eq!(compact(&replaced), r#"{"a":"x","b":2}"#);
    let added = navigate::set(&v, "c", num(3)).unwrap();
    assert_eq!(compact(&added), r#"{"a":1,"b":2,"c":3}"#);
    assert_eq!(compact(&v), r#"{"a":1,"b":2}"#);
    assert_eq!(navigate::set(&parse("[1]"), "a", num(1)), Err(JsonError::TypeMismatch));
}

#[test]
fn keys_flat_and_recursive() {
    let v = parse(r#"{"a":{"b":1,"c":[{"x":1}]},"d":2}"#);
    assert_eq!(keys(&v, false), path(&["a", "d"]));
    assert_eq!(keys(&v, true), path(&["a", "b", "c", "d"]));
    assert_eq!(keys(&parse("[1]"), true), Vec::<String>::new());
}

#[test]
fn values_flat_and_recursive() {
    let v = parse(r#"{"a":[1,2],"b":3}"#);
    assert_eq!(values(&v, false), vec![parse("[1,2]"), num(3)]);
    assert_eq!(values(&v, true), vec![parse("[1,2]"), num(1), num(2), num(3)]);
    assert_eq!(values(&num(1), true), vec![]);
}

#[test]
fn count_and_depth() {
    assert_eq!(count_values(&num(1)), 1);
    assert_eq!(count_values(&parse(r#"{"a":[1,2],"b":{}}"#)), 5);
    assert_eq!(depth(&num(1)), 0);
    assert_eq!(depth(&parse("[]")), 1);
    assert_eq!(depth(&parse("{}")), 1);
    assert_eq!(depth(&parse(r#"{"a":[1,[2]],"b":0}"#)), 3);
}

#[test]
fn find_paths_all_matches() {
    let v = parse(r#"{"a":1,"b":[1,{"c":1}]}"#);
    let found = find_paths(&v, &num(1));
    let expect: Vec<Vec<String>> =
        vec![path(&["a"]), path(&["b", "0"]), path(&["b", "1", "c"])];
    assert_eq!(found, expect);
    let whole = find_paths(&v, &v);
    assert_eq!(whole[0], Vec::<String>::new());
    let containers = find_paths(&parse(r#"[[1],[1]]"#), &parse("[1]"));
    assert_eq!(containers, vec![path(&["0"]), path(&["1"])]);
}

#[test]
fn sort_keys_recursive_and_idempotent() {
    let v = parse(r#"{"b":1,"a":{"d":[{"z":1,"y":2}],"c":2},"B":0}"#);
    let s = sort_keys(&v);
    assert_eq!(compact(&s), r#"{"B":0,"a":{"c":2,"d":[{"y":2,"z":1}]},"b":1}"#);
    assert_eq!(sort_keys(&s), s);
    let unicode = parse(r#"{"é":1,"z":2,"a":3}"#);
    assert_eq!(compact(&sort_keys(&unicode)), r#"{"a":3,"z":2,"é":1}"#);
}

#[test]
fn text_compact_and_pretty() {
    let v = parse(r#"{"a":[1,2],"b":{},"c":[],"d":{"e":null}}"#);
    assert_eq!(compact(&v), r#"{"a":[1,2],"b":{},"c":[],"d":{"e":null}}"#);
    let expect = "{\n  \"a\": [\n    1,\n    2\n  ],\n  \"b\": {},\n  \"c\": [],\n  \"d\": {\n    \"e\": null\n  }\n}";
    assert_eq!(to_text(&v, true), expect);
    assert_eq!(to_text(&num(-42), true), "-42");
}

#[test]
fn text_escapes_strings() {
    let v = text("q\"b\\n\nt\tc\u{1}\u{7f}é");
    assert_eq!(compact(&v), "\"q\\\"b\\\\n\\nt\\tc\\u0001\u{7f}é\"");
    assert_eq!(parse(&compact(&v)), v);
}

#[test]
fn numbers_round_trip() {
    for s in ["0", "-1", "9223372036854775807", "-9223372036854775808", "18446744073709551615", "2.5", "1e300", "-0.125"] {
        let v = parse(s);
        assert_eq!(parse(&compact(&v)), v);
    }
    assert_eq!(parse("18446744073709551615"), JsonValue::UInt64(u64::MAX));
    assert_eq!(parse("-9223372036854775808"), num(i64::MIN));
    assert_eq!(compact(&num(i64::MIN)), "-9223372036854775808");
    assert_eq!(parse("1.50"), JsonValue::Float64("1.5".to_string()));
    assert_eq!(as_text(&parse("1E2")), "100.0");
}

fn as_text(v: &JsonValue) -> String {
    v.as_f64().unwrap_or_default()
}

#[test]
fn round_trip_compact_and_pretty() {
    let v = parse(r#"{"a":[1,-2,3.5,"s",true,null,{"b":[]}],"c":{"d":18446744073709551615}}"#);
    assert!(equals(&parse(&to_text(&v, false)), &v));
    assert!(equals(&parse(&to_text(&v, true)), &v));
    assert_eq!(from_bytes(&to_bytes(&v, true)).unwrap(), v);
}

#[test]
fn bytes_and_size() {
    let v = parse(r#"{"é":1}"#);
    assert_eq!(to_bytes(&v, false), "{\"é\":1}".as_bytes().to_vec());
    assert_eq!(byte_size(&v), 8);
    assert_eq!(byte_size(&v), to_bytes(&v, false).len());
    assert_eq!(to_bytes(&text("€😀"), false), "\"€😀\"".as_bytes().to_vec());
}

#[test]
fn parse_errors() {
    assert!(matches!(from_text("{"), Err(JsonError::Parse(_))));
    assert!(matches!(from_text("[1,]"), Err(JsonError::Parse(_))));
    assert!(matches!(from_bytes(b"nul"), Err(JsonError::Parse(_))));
    if let Err(JsonError::Parse(m)) = from_text("[1,]") {
        assert!(!m.is_empty());
    }
    let deep = "[".repeat(200) + &"]".repeat(200);
    assert!(matches!(from_text(&deep), Err(JsonError::Parse(_))));
}

#[test]
fn validate_and_minify() {
    assert!(validate("[1, 2]"));
    assert!(!validate("[1, 2"));
    assert!(!validate(""));
    assert_eq!(minify("{ \"a\" : [ 1 , 2 ] }\n").unwrap(), r#"{"a":[1,2]}"#);
    assert!(matches!(minify("{"), Err(JsonError::Parse(_))));
}

#[test]
fn predicates_and_accessors() {
    let f = parse("2.5");
    assert!(f.is_number() && f.is_f64() && !f.is_i64() && !f.is_u64());
    assert_eq!(f.as_f64(), Some("2.5".to_string()));
    assert_eq!(f.as_i64(), None);
    let u = JsonValue::UInt64(3);
    assert!(u.is_u64() && !u.is_i64());
    assert_eq!(u.as_u64(), Some(3));
    assert_eq!(num(3).as_u64(), None);
    assert!(JsonValue::Null.is_null());
    assert_eq!(JsonValue::Bool(true).as_bool(), Some(true));
    assert!(text("x").is_string());
    assert_eq!(text("x").as_str(), Some("x".to_string()));
    assert!(parse("[]").is_array() && parse("{}").is_object());
    assert!(!parse("[]").is_object());
}

#[test]
fn zero_and_negative_zero_are_equal() {
    let z = parse("0.0");
    let nz = parse("-0.0");
    assert_eq!(nz, JsonValue::Float64("-0.0".to_string()));
    assert!(equals(&z, &nz));
    assert!(!equals(&z, &parse("0")));
    assert!(equals(&parse("[0.0]"), &parse("[-0.0]")));
}

#[test]
fn bytes_read_as_text_reads() {
    let s = r#"{"a":[1,2.5,"x"],"b":null}"#;
    assert_eq!(from_bytes(s.as_bytes()).unwrap(), from_text(s).unwrap());
    assert!(matches!(from_bytes(&[0xff, 0x31]), Err(JsonError::Parse(_))));
}

#[test]
fn minify_is_stable() {
    let m = minify("[ {\"b\" : 1 , \"a\": [ ] } , -0.50 ]").unwrap();
    assert_eq!(m, r#"[{"b":1,"a":[]},-0.5]"#);
    assert_eq!(minify(&m).unwrap(), m);
    assert!(validate(&m));
}

#[test]
fn number_kinds_on_reading() {
    assert_eq!(parse("9223372036854775807"), num(i64::MAX));
    assert_eq!(parse("9223372036854775808"), JsonValue::UInt64(9223372036854775808));
    assert!(parse("18446744073709551616").is_f64());
    assert!(parse("1.0e0").is_f64());
}
