use json_codec::parse::str_to_chars;
use json_codec::value::deep_clone;
use json_codec::value::value_eq;
use json_codec::value::Dec;
use json_codec::value::Json;
use json_codec::value::JsonDtype;
use json_codec::value::Num;

fn key(s: &str) -> JsonDtype {
    JsonDtype::String(s.to_string())
}

fn num(i: i128) -> JsonDtype {
    JsonDtype::Number(Num::Integer(i))
}

fn dec(neg: bool, digits: &str, exp: i128) -> JsonDtype {
    JsonDtype::Number(Num::Float(Dec { neg, digits: digits.chars().collect(), exp }))
}

#[test]
fn empty_object() {
    let o = Json::parse("{}").unwrap();
    assert!(o.is_empty());
    assert_eq!(o.len(), 0);
}

#[test]
fn empty_array_wraps_under_data() {
    let o = Json::parse("[]").unwrap();
    assert_eq!(o.len(), 1);
    let v = o.get(&key("data")).unwrap();
    assert!(value_eq(v, &JsonDtype::Array(Vec::new())));
}

#[test]
fn int_limits_round_trip() {
    let o = Json::parse("{\"k\": 170141183460469231731687303715884105727}").unwrap();
    assert!(value_eq(o.get(&key("k")).unwrap(), &num(i128::MAX)));
    let s = o.stringify();
    assert_eq!(s, "{\"k\": 170141183460469231731687303715884105727}");
    let o2 = Json::parse(&s).unwrap();
    assert!(o.obj_eq(&o2));

    let o = Json::parse("{\"k\": -170141183460469231731687303715884105728}").unwrap();
    assert!(value_eq(o.get(&key("k")).unwrap(), &num(i128::MIN)));
    let s = o.stringify();
    let o2 = Json::parse(&s).unwrap();
    assert!(o.obj_eq(&o2));
}

#[test]
fn int_overflow_is_fatal() {
    assert!(Json::parse("{\"k\": 170141183460469231731687303715884105728}").is_err());
    assert!(Json::parse("{\"k\": -170141183460469231731687303715884105729}").is_err());
}

#[test]
fn escaped_backslash_quote() {
    // the five-byte payload \\\" parses to the two characters backslash, quote
    let o = Json::parse("{\"k\":\"\\\\\\\"\"}").unwrap();
    let v = o.get(&key("k")).unwrap();
    assert!(value_eq(v, &key("\\\"")));
}

#[test]
fn unknown_escapes_pass_through() {
    // \n is not an escape of this dialect: it stays as two characters
    let o = Json::parse("{\"k\":\"a\\nb\"}").unwrap();
    assert!(value_eq(o.get(&key("k")).unwrap(), &key("a\\nb")));
}

#[test]
fn mixed_document() {
    let o = Json::parse("{\"a\":1,\"b\":[true,null,2.5]}").unwrap();
    assert!(value_eq(o.get(&key("a")).unwrap(), &num(1)));
    let expected = JsonDtype::Array(vec![
        JsonDtype::Boolean(true),
        JsonDtype::Null,
        dec(false, "25", -1),
    ]);
    assert!(value_eq(o.get(&key("b")).unwrap(), &expected));
    let o2 = Json::parse(&o.stringify()).unwrap();
    assert!(o.obj_eq(&o2));
}

#[test]
fn top_level_array() {
    let o = Json::parse("[1,2,3]").unwrap();
    let expected = JsonDtype::Array(vec![num(1), num(2), num(3)]);
    assert!(value_eq(o.get(&key("data")).unwrap(), &expected));
}

#[test]
fn duplicate_keys_last_wins() {
    let o = Json::parse("{\"a\":1,\"a\":2}").unwrap();
    assert_eq!(o.len(), 1);
    assert!(value_eq(o.get(&key("a")).unwrap(), &num(2)));
}

#[test]
fn quoted_quote_in_string() {
    let o = Json::parse("{\"x\":\"he said \\\"hi\\\"\"}").unwrap();
    assert!(value_eq(o.get(&key("x")).unwrap(), &key("he said \"hi\"")));
}

#[test]
fn insert_then_stringify_single_entry() {
    let mut o = Json::parse("{\"k\":1}").unwrap();
    o.insert(key("k"), num(2));
    let s = o.stringify();
    assert_eq!(s, "{\"k\": 2}");
}

#[test]
fn pretty_empty_array_member() {
    let o = Json::parse("{\"a\":[]}").unwrap();
    assert_eq!(o.stringify_pretty(), "{\n    \"a\": []\n}");
}

#[test]
fn pretty_and_compact_agree_modulo_whitespace() {
    let o = Json::parse("{\"a\": {\"b\": [1, 2.5, \"x y\"], \"c\": null}, \"d\": false}")
        .unwrap();
    let strip = |s: String| -> String {
        s.chars().filter(|c| *c != ' ' && *c != '\t' && *c != '\n').collect()
    };
    assert_eq!(strip(o.stringify()), strip(o.stringify_pretty()));
}

#[test]
fn insert_get_contains() {
    let mut o = Json::new();
    o.insert(key("a"), num(1));
    assert!(o.contains_key(&key("a")));
    assert!(value_eq(o.get(&key("a")).unwrap(), &num(1)));
    o.insert(key("a"), num(7));
    assert_eq!(o.len(), 1);
    assert!(value_eq(o.get(&key("a")).unwrap(), &num(7)));
}

#[test]
fn remove_then_get_none() {
    let mut o = Json::new();
    o.insert(key("a"), num(1));
    o.remove(&key("a"));
    assert!(o.get(&key("a")).is_none());
    assert!(!o.contains_key(&key("a")));
    // removing an absent key is no error
    o.remove(&key("zzz"));
}

#[test]
fn update_merges_and_overwrites() {
    let mut o = Json::new();
    o.insert(key("a"), num(1));
    o.insert(key("b"), num(2));
    let mut p = Json::new();
    p.insert(key("b"), num(9));
    p.insert(key("c"), num(3));
    o.update(&p);
    assert!(o.contains_key(&key("a")));
    assert!(o.contains_key(&key("b")));
    assert!(o.contains_key(&key("c")));
    assert!(value_eq(o.get(&key("b")).unwrap(), &num(9)));
    assert!(value_eq(o.get(&key("c")).unwrap(), &num(3)));
    // p is still usable after the merge
    assert!(value_eq(p.get(&key("c")).unwrap(), &num(3)));
}

#[test]
fn object_equality_is_order_blind() {
    let mut a = Json::new();
    a.insert(key("x"), num(1));
    a.insert(key("y"), num(2));
    let mut b = Json::new();
    b.insert(key("y"), num(2));
    b.insert(key("x"), num(1));
    assert!(a.obj_eq(&b));
    assert!(b.obj_eq(&a));
    b.insert(key("y"), num(3));
    assert!(!a.obj_eq(&b));
}

#[test]
fn value_equality_reflexive_symmetric() {
    let v = JsonDtype::Array(vec![num(1), dec(true, "5", -1), JsonDtype::Null]);
    let w = deep_clone(&v);
    assert!(value_eq(&v, &v));
    assert!(value_eq(&v, &w));
    assert!(value_eq(&w, &v));
    assert!(!value_eq(&v, &num(1)));
}

#[test]
fn integer_and_float_keys_are_distinct() {
    let mut o = Json::new();
    o.insert(num(2), key("int"));
    o.insert(dec(false, "2", 0), key("float"));
    assert_eq!(o.len(), 2);
    assert!(value_eq(o.get(&num(2)).unwrap(), &key("int")));
    assert!(value_eq(o.get(&dec(false, "2", 0)).unwrap(), &key("float")));
}

#[test]
fn non_string_key_renders_quoted() {
    let mut o = Json::new();
    o.insert(num(42), num(1));
    assert_eq!(o.stringify(), "{\"42\": 1}");
}

#[test]
fn float_forms() {
    // normalization: 2.50 and 2.5 denote the same decimal
    let a = Json::parse("{\"k\": 2.50}").unwrap();
    let b = Json::parse("{\"k\": 2.5}").unwrap();
    assert!(a.obj_eq(&b));
    assert_eq!(a.stringify(), "{\"k\": 2.5}");
    // an exponent shifts the point; the rendering is plain notation
    let c = Json::parse("{\"k\": 2.5e3}").unwrap();
    assert_eq!(c.stringify(), "{\"k\": 2500}");
    let d = Json::parse("{\"k\": -0.025}").unwrap();
    assert_eq!(d.stringify(), "{\"k\": -0.025}");
    // a signed zero keeps its sign
    let e = Json::parse("{\"k\": -0.0}").unwrap();
    assert_eq!(e.stringify(), "{\"k\": -0}");
    let f = Json::parse("{\"k\": 0.0}").unwrap();
    assert!(!e.obj_eq(&f));
}

#[test]
fn malformed_inputs_are_fatal() {
    assert!(Json::parse("").is_err());
    assert!(Json::parse("   ").is_err());
    assert!(Json::parse("x").is_err());
    assert!(Json::parse("{\"a\" 1}").is_err()); // missing colon
    assert!(Json::parse("{\"a\":tru}").is_err()); // bad literal
    assert!(Json::parse("{\"a\":nul}").is_err()); // bad literal
    assert!(Json::parse("{\"a\":\"unterminated").is_err()); // EOF in string
    assert!(Json::parse("{\"a\":1").is_err()); // EOF before brace
    assert!(Json::parse("{\"a\":1 x}").is_err()); // junk after value
    assert!(Json::parse("{\"a\":1.2.3}").is_err()); // second point
    assert!(Json::parse("{\"a\":1e2e3}").is_err()); // second exponent
    assert!(Json::parse("{\"a\":1e3}").is_err()); // exponent without point
    assert!(Json::parse("\r{}").is_err()); // carriage return is not whitespace
}

#[test]
fn commas_are_liberal() {
    let o = Json::parse("[,1,,2,3,]").unwrap();
    let expected = JsonDtype::Array(vec![num(1), num(2), num(3)]);
    assert!(value_eq(o.get(&key("data")).unwrap(), &expected));
    let p = Json::parse("{\"a\":1,}").unwrap();
    assert_eq!(p.len(), 1);
}

#[test]
fn keys_iter_clear() {
    let mut o = Json::new();
    o.insert(key("a"), num(1));
    o.insert(key("b"), num(2));
    assert_eq!(o.keys().len(), 2);
    assert_eq!(o.iter().len(), 2);
    o.clear();
    assert!(o.is_empty());
}

#[test]
fn str_to_chars_matches() {
    let v = str_to_chars("a\"\\b");
    assert_eq!(v, vec!['a', '"', '\\', 'b']);
}

#[test]
fn round_trip_built_value() {
    // parse(stringify(wrap(v))) equals wrap(v) for an exactly representable tree
    let mut o = Json::new();
    o.insert(key("n"), num(-7));
    o.insert(key("s"), key("a b"));
    o.insert(key("l"), JsonDtype::Array(vec![num(1), JsonDtype::Boolean(false)]));
    let o2 = Json::parse(&o.stringify()).unwrap();
    assert!(o.obj_eq(&o2));
    let o3 = Json::parse(&o2.stringify()).unwrap();
    assert!(o2.obj_eq(&o3));
}

#[test]
fn pretty_nested_shape() {
    let o = Json::parse("{\"a\": [1, {\"b\": 2}]}").unwrap();
    let p = o.stringify_pretty();
    assert_eq!(
        p,
        "{\n    \"a\": [\n        1,\n        {\n            \"b\": 2\n        }\n    ]\n}"
    );
}

#[test]
fn hash_follows_equality() {
    let v = JsonDtype::Array(vec![num(3), key("x"), JsonDtype::Boolean(true)]);
    let w = deep_clone(&v);
    assert_eq!(v.hash64(), w.hash64());
    assert_ne!(num(2).hash64(), dec(false, "2", 0).hash64());
    // order-blind object hash: same entries inserted in either order
    let mut a = Json::new();
    a.insert(key("x"), num(1));
    a.insert(key("y"), num(2));
    let mut b = Json::new();
    b.insert(key("y"), num(2));
    b.insert(key("x"), num(1));
    assert!(a.obj_eq(&b));
    assert_eq!(a.hash64(), b.hash64());
    // signed zeros are distinct values with distinct hashes
    assert_ne!(dec(true, "", 0).hash64(), dec(false, "", 0).hash64());
}

#[test]
fn conversions() {
    assert!(value_eq(&JsonDtype::from(5i128), &num(5)));
    assert!(value_eq(&JsonDtype::from(true), &JsonDtype::Boolean(true)));
    assert!(value_eq(&JsonDtype::from(()), &JsonDtype::Null));
    assert!(value_eq(&JsonDtype::from("hi"), &key("hi")));
    assert!(value_eq(&JsonDtype::from("hi".to_string()), &key("hi")));
    assert!(value_eq(&JsonDtype::from(vec![num(1)]), &JsonDtype::Array(vec![num(1)])));
    assert!(value_eq(&JsonDtype::from(Json::new()), &JsonDtype::Object(Json::new())));
    assert!(value_eq(&JsonDtype::new(num(9)), &num(9)));
}
