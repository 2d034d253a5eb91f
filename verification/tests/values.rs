use autochat::config::{persona_for, python_format, Config, FormatError};
use autochat::filedb::FileDb;
use autochat::json::{insert, Json};
use autochat::number::Real;
use autochat::util::json_f64_vec;
use autochat::yaml::{
    mapping_get, value_to_f64, value_to_float, value_to_i64, value_to_string, yaml_to_json, Yaml,
};

fn json(s: &str) -> Json {
    Json::parse(s).unwrap()
}

fn yaml(s: &str) -> Yaml {
    Yaml::parse(s).unwrap()
}

fn config(s: &str) -> Config {
    Config { mtime: None, data: yaml(s) }
}

fn bits_of(x: f64) -> Real {
    Real { bits: x.to_bits() }
}

fn float(x: Real) -> f64 {
    f64::from_bits(x.bits)
}

fn vars(pairs: &[(&str, &str)]) -> Vec<(String, String)> {
    pairs.iter().map(|(a, b)| (a.to_string(), b.to_string())).collect()
}

#[test]
fn json_goes_through_text() {
    for s in [
        "null",
        "true",
        "[1,-2,3.5,18446744073709551615,\"你\\n\"]",
        "{\"a\":[],\"b\":{},\"c\":{\"x\":null}}",
    ] {
        assert_eq!(json(s).text(), s);
    }
    assert_eq!(json("{\"b\":1,\"a\":2,\"b\":3}").text(), "{\"a\":2,\"b\":3}");
    assert!(Json::parse("{").is_none());
    assert!(Json::parse("").is_none());
    assert_eq!(json(" [1 , 2] ").copy().text(), "[1,2]");
}

#[test]
fn json_parts() {
    let v = json("{\"s\":\"t\",\"n\":5,\"a\":[1,\"x\",null,\"y\"],\"o\":{}}");
    assert_eq!(v.get_str("s"), Some("t"));
    assert_eq!(v.get_str("n"), None);
    assert_eq!(v.str_or_empty("missing"), "");
    assert_eq!(v.strings("a"), vec!["x", "y"]);
    assert!(v.strings("s").is_empty());
    assert_eq!(v.get("a").unwrap().as_array().unwrap().len(), 4);
    assert!(v.get("zzz").is_none());
    assert!(json("[1]").get("a").is_none());
    assert!(json("null").is_null());
}

#[test]
fn json_numbers() {
    assert_eq!(json("5").to_int(), Some(5));
    assert_eq!(json("-5.9").to_int(), Some(-5));
    assert_eq!(json("1e300").to_int(), Some(i64::MAX));
    assert_eq!(json("18446744073709551615").to_int(), Some(-1));
    assert_eq!(json("18446744073709551615").as_int(), Some(-1));
    assert_eq!(json("1.0").as_int(), None);
    assert_eq!(json("\"12\"").to_int(), Some(12));
    assert_eq!(json("\"x\"").to_int(), None);
    assert_eq!(json("true").to_int(), None);
    assert_eq!(json("7").as_real().map(float), Some(7.0));
    assert_eq!(json("\"7\"").as_real(), None);
    assert_eq!(json("7").as_float().unwrap().text(), "7.0");
    assert!(json("[]").as_float().is_none());
    assert_eq!(Json::integer(-3).text(), "-3");
    assert_eq!(Json::decimal("2.5").text(), "2.5");
    assert!(Json::decimal("inf").is_null());
    assert!(Json::decimal("x").is_null());
}

#[test]
fn json_objects_stay_in_order() {
    let mut entries = Vec::new();
    for key in ["m", "a", "z", "m"] {
        entries = insert(entries, key, Json::str(key));
    }
    let keys: Vec<&str> = entries.iter().map(|e| e.0.as_str()).collect();
    assert_eq!(keys, vec!["a", "m", "z"]);
    assert_eq!(Json::object(entries).text(), "{\"a\":\"a\",\"m\":\"m\",\"z\":\"z\"}");
    let texts = vec!["x".to_string(), "y".to_string()];
    assert_eq!(Json::texts(&texts).text(), "[\"x\",\"y\"]");
}

#[test]
fn json_values_of_the_outside_crate() {
    let v: serde_json::Value = serde_json::from_str("{\"k\":[1,{\"z\":0.25}]}").unwrap();
    let ours = Json::from_value(v.clone());
    assert_eq!(ours.text(), v.to_string());
    assert_eq!(ours.to_value(), v);
}

#[test]
fn vectors_in_json() {
    let v: Vec<f64> = json_f64_vec(&json("[1,2.5,-3]")).unwrap().into_iter().map(float).collect();
    assert_eq!(v, vec![1.0, 2.5, -3.0]);
    assert!(json_f64_vec(&json("[1,\"2\"]")).is_none());
    assert!(json_f64_vec(&json("{}")).is_none());
    assert!(json_f64_vec(&json("[]")).unwrap().is_empty());
}

#[test]
fn yaml_members_by_text_and_number() {
    let v = yaml("a: 1\n2: two\n3.5: x\n'4': four\n");
    assert_eq!(value_to_string(mapping_get(&v, "a").unwrap()), "1");
    assert_eq!(value_to_string(mapping_get(&v, "2").unwrap()), "two");
    assert_eq!(value_to_string(mapping_get(&v, "3.5").unwrap()), "x");
    assert_eq!(value_to_string(mapping_get(&v, "4").unwrap()), "four");
    assert!(mapping_get(&v, "5").is_none());
    assert!(mapping_get(&yaml("[1]"), "0").is_none());
    assert!(Yaml::parse("a: [").is_none());
}

#[test]
fn yaml_scalars() {
    assert_eq!(value_to_string(&yaml("true")), "true");
    assert_eq!(value_to_string(&yaml("~")), "");
    assert_eq!(value_to_string(&yaml("-12")), "-12");
    assert_eq!(value_to_string(&yaml("2.5")), "2.5");
    assert_eq!(value_to_string(&yaml("[1, 2]")), "- 1\n- 2");
    assert_eq!(value_to_string(&yaml("{a: b}")), "a: b");
    assert_eq!(value_to_i64(&yaml("2.9")), Some(2));
    assert_eq!(value_to_i64(&yaml("'17'")), Some(17));
    assert_eq!(value_to_i64(&yaml("true")), None);
    assert_eq!(value_to_f64(&yaml("'1.5'")).map(float), Some(1.5));
    assert_eq!(value_to_f64(&yaml("3")).map(float), Some(3.0));
    assert_eq!(value_to_f64(&yaml("[]")), None);
    assert_eq!(value_to_float(&yaml("3")).unwrap().text(), "3.0");
    assert_eq!(value_to_float(&yaml("'0.5'")).unwrap().text(), "0.5");
    assert!(value_to_float(&yaml(".inf")).unwrap().is_null());
}

#[test]
fn yaml_becomes_json() {
    let v = yaml("b: [1, 18446744073709551615, 2.5, .nan]\na: {1: x, y: ~}\nc: !tag 5\n");
    assert_eq!(
        yaml_to_json(&v).text(),
        "{\"a\":{\"1\":\"x\",\"y\":null},\"b\":[1,18446744073709551615,2.5,null],\"c\":5}"
    );
}

#[test]
fn config_by_dotted_keys() {
    let cfg = config("chat:\n  n: 5\n  neg: -3\n  s: hi\n  f: 0.25\n  t: 'YES'\n  z: 0\n  e: ~\n  m:\n    1: a\n    k: b\n");
    assert_eq!(cfg.str("chat.s"), "hi");
    assert_eq!(cfg.str("chat.none"), "");
    assert_eq!(cfg.str_or("chat.e", "d"), "d");
    assert_eq!(cfg.str_or("chat.n", "d"), "5");
    assert_eq!(cfg.i64_or("chat.n", 1), 5);
    assert_eq!(cfg.i64_or("chat.s", 1), 1);
    assert_eq!(cfg.usize_or("chat.neg", 9), 0);
    assert_eq!(cfg.usize_or("chat.none", 9), 9);
    assert_eq!(float(cfg.f64_or("chat.f", bits_of(1.0))), 0.25);
    assert_eq!(float(cfg.f64_or("chat.none", bits_of(1.0))), 1.0);
    assert!(cfg.bool_or("chat.t", false));
    assert!(!cfg.bool_or("chat.z", true));
    assert!(cfg.bool_or("chat.none", true));
    assert_eq!(cfg.float_or("chat.f", 9).text(), "0.25");
    assert_eq!(cfg.float_or("chat.s", 9).text(), "9.0");
    assert!(cfg.get("chat.none").is_null());
    assert_eq!(value_to_i64(cfg.get_or("chat.none", &yaml("4"))), Some(4));
    assert!(cfg.require("chat.n").is_ok());
    assert_eq!(cfg.require("chat.none").unwrap_err(), "配置 chat.autochat 中不存在 chat.none");
    let pairs: Vec<(String, String)> =
        cfg.mapping("chat.m").into_iter().map(|(k, v)| (k, value_to_string(v))).collect();
    assert_eq!(pairs, vars(&[("1", "a"), ("k", "b")]));
    assert!(cfg.mapping("chat.n").is_empty());
}

#[test]
fn config_keeps_what_it_has_when_the_file_is_bad() {
    let mut cfg = Config::unread();
    assert!(!cfg.is_fresh(None));
    assert!(cfg.refresh(Some(1), Some("a: 1")));
    assert_eq!(cfg.i64_or("a", 0), 1);
    assert!(cfg.refresh(Some(1), Some("a: 2")));
    assert_eq!(cfg.i64_or("a", 0), 1);
    assert!(!cfg.refresh(Some(2), Some("a: [")));
    assert_eq!(cfg.i64_or("a", 0), 1);
    assert_eq!(cfg.mtime, Some(2));
    assert!(!cfg.refresh(Some(3), None));
    assert_eq!(cfg.mtime, Some(3));
    assert!(cfg.refresh(Some(4), Some("a: 5")));
    assert_eq!(cfg.i64_or("a", 0), 5);
}

#[test]
fn templates_are_filled_in() {
    let v = vars(&[("name", "N"), ("x", "{y}")]);
    assert_eq!(python_format("{{{name}}} {x}!", &v).unwrap(), "{N} {y}!");
    assert_eq!(python_format("{ name!r:>5 }", &v).unwrap(), "N");
    assert_eq!(python_format("", &v).unwrap(), "");
    assert_eq!(python_format("a }} {{ b", &v).unwrap(), "a } { b");
}

#[test]
fn faulty_templates_are_refused() {
    let v = vars(&[("a", "1")]);
    let fault = |t: &str| python_format(t, &v).unwrap_err();
    assert!(matches!(fault("{}"), FormatError::InvalidField(_)));
    assert_eq!(fault("{ }").message(), "invalid format field {}");
    assert_eq!(fault("{a{b}").message(), "invalid format field {a{b}");
    assert_eq!(fault("{b}").message(), "配置 format 缺少字段: b");
    assert_eq!(fault("x{a").message(), "unmatched '{' in format string");
    assert_eq!(fault("a}b").message(), "unmatched '}' in format string");
}

#[test]
fn escaped_text_is_filled_in_to_itself() {
    let text = "a{b}c}}{";
    let escaped = text.replace('{', "{{").replace('}', "}}");
    assert_eq!(python_format(&escaped, &Vec::new()).unwrap(), text);
}

#[test]
fn personas_of_groups() {
    let p = yaml("1: one\n'2': two\ndefault: d\n");
    assert_eq!(persona_for(&p, 1), "one");
    assert_eq!(persona_for(&p, 2), "two");
    assert_eq!(persona_for(&p, 3), "d");
    assert_eq!(persona_for(&yaml("1: one"), 3), "");
    assert_eq!(persona_for(&yaml("text"), 3), "");
}

#[test]
fn store_gives_back_what_was_set() {
    let mut db = FileDb::load(None);
    assert_eq!(db.data.text(), "{}");
    db.set("b", json("[1]"));
    db.set("a", json("{\"x\":\"y\"}"));
    db.set("b", json("2"));
    assert_eq!(db.get("b").text(), "2");
    assert_eq!(db.get("a").text(), "{\"x\":\"y\"}");
    assert!(db.get("c").is_null());
    assert_eq!(db.get_or("c", json("7")).text(), "7");
    assert_eq!(db.get_or("b", json("7")).text(), "2");
    let bytes = db.save();
    assert_eq!(bytes, b"{\n  \"a\": {\n    \"x\": \"y\"\n  },\n  \"b\": 2\n}".to_vec());
    let back = FileDb::load(Some(&bytes));
    assert_eq!(back.data.text(), db.data.text());
}

#[test]
fn store_of_bad_bytes_is_empty() {
    assert_eq!(FileDb::load(Some(&b"{\"a\":".to_vec())).data.text(), "{}");
    assert_eq!(FileDb::load(Some(&vec![0xff])).data.text(), "{}");
    let mut db = FileDb::load(Some(&b"[1,2]".to_vec()));
    assert_eq!(db.data.text(), "[1,2]");
    assert!(db.get("a").is_null());
    db.set("a", json("1"));
    assert_eq!(db.data.text(), "{\"a\":1}");
}

#[test]
fn scalar_keys_are_written() {
    assert_eq!(value_to_string(&yaml("{true: a, ~: b, 1.5: c}")), "true: a\nnull: b\n1.5: c");
    assert_eq!(
        yaml_to_json(&yaml("{true: 1, 2: {1.5: x}, k: !tag [~]}")).text(),
        r#"{"2":{"1.5":"x"},"k":[null],"true":1}"#
    );
}

#[test]
fn tags_are_written() {
    assert_eq!(value_to_string(&yaml("!thing x")), "!thing x");
    assert!(yaml("!thing ~").is_null());
}
