//! Equality of YAML values, and images.

use manifestdiff::{parse_image, value_equal, Entry, EnvVar, Number, Value, VolumeMount};

fn value(v: &serde_yaml::Value) -> Value {
    match v {
        serde_yaml::Value::Null => Value::Null,
        serde_yaml::Value::Bool(b) => Value::Bool(*b),
        serde_yaml::Value::Number(n) => Value::Number(match (n.as_u64(), n.as_i64()) {
            (Some(u), _) => Number::PosInt(u),
            (None, Some(i)) => Number::NegInt(i),
            (None, None) => Number::Float(n.as_f64().unwrap().to_bits()),
        }),
        serde_yaml::Value::String(s) => Value::String(s.clone()),
        serde_yaml::Value::Sequence(s) => Value::Sequence(s.iter().map(value).collect()),
        serde_yaml::Value::Mapping(m) => Value::Mapping(
            m.iter().map(|(k, v)| Entry { key: value(k), value: value(v) }).collect(),
        ),
        serde_yaml::Value::Tagged(t) => {
            Value::Tagged { tag: t.tag.to_string(), value: Box::new(value(&t.value)) }
        }
    }
}

fn texts() -> Vec<&'static str> {
    vec![
        "~",
        "true",
        "false",
        "0",
        "1",
        "-1",
        "-0",
        "18446744073709551615",
        "1.0",
        "1.5",
        "0.0",
        "-0.0",
        ".nan",
        "-.nan",
        ".inf",
        "-.inf",
        "text",
        "'1'",
        "''",
        "[]",
        "[1, 2]",
        "[2, 1]",
        "[1]",
        "{}",
        "{a: 1}",
        "{a: 1, b: 2}",
        "{b: 2, a: 1}",
        "{a: 2, b: 1}",
        "{a: 1, c: 2}",
        "{a: {x: 1, y: [1, {p: q, r: s}]}, b: 2}",
        "{b: 2, a: {y: [1, {r: s, p: q}], x: 1}}",
        "{b: 2, a: {y: [{r: s, p: q}, 1], x: 1}}",
        "{1: a, '1': b}",
        "{'1': b, 1: a}",
        "{{k: 1, l: 2}: v, z: 0}",
        "{z: 0, {l: 2, k: 1}: v}",
        "{.nan: 1}",
        "!tag 1",
        "!other 1",
        "!tag 2",
        "!tag {a: 1, b: 2}",
        "!tag {b: 2, a: 1}",
    ]
}

#[test]
fn equality_agrees_with_the_yaml_library() {
    let docs: Vec<serde_yaml::Value> =
        texts().into_iter().map(|t| serde_yaml::from_str(t).unwrap()).collect();
    let mut equal_pairs = 0;
    for a in &docs {
        for b in &docs {
            assert_eq!(value_equal(&value(a), &value(b)), a == b, "{a:?} and {b:?}");
            assert_eq!(value(a) == value(b), a == b, "{a:?} and {b:?}");
            if a == b {
                equal_pairs += 1;
            }
        }
    }
    assert!(equal_pairs > docs.len());
}

#[test]
fn equality_is_reflexive_symmetric_and_transitive() {
    let docs: Vec<Value> =
        texts().into_iter().map(|t| value(&serde_yaml::from_str(t).unwrap())).collect();
    for a in &docs {
        assert!(value_equal(a, a));
        for b in &docs {
            assert_eq!(value_equal(a, b), value_equal(b, a));
            for c in &docs {
                if value_equal(a, b) && value_equal(b, c) {
                    assert!(value_equal(a, c));
                }
            }
        }
    }
}

#[test]
fn entry_order_does_not_matter() {
    let entry = |k: &str, v: u64| Entry {
        key: Value::String(k.to_string()),
        value: Value::Number(Number::PosInt(v)),
    };
    let a = Value::Mapping(vec![entry("path", 1), entry("port", 2)]);
    let b = Value::Mapping(vec![entry("port", 2), entry("path", 1)]);
    let c = Value::Mapping(vec![entry("port", 1), entry("path", 2)]);
    assert!(value_equal(&a, &b));
    assert!(!value_equal(&a, &c));
    assert!(!value_equal(&a, &Value::Mapping(vec![entry("path", 1)])));
}

#[test]
fn sequence_order_matters() {
    let a = Value::Sequence(vec![Value::Null, Value::Bool(true)]);
    let b = Value::Sequence(vec![Value::Bool(true), Value::Null]);
    assert!(!value_equal(&a, &b));
}

#[test]
fn tags_are_equal_with_and_without_their_mark() {
    let tagged = |tag: &str| Value::Tagged { tag: tag.to_string(), value: Box::new(Value::Null) };
    assert!(value_equal(&tagged("!Ref"), &tagged("Ref")));
    assert!(!value_equal(&tagged("!Ref"), &tagged("!!Ref")));
    assert!(!value_equal(&tagged("!"), &tagged("")));
    assert!(value_equal(&tagged("!"), &tagged("!")));
}

#[test]
fn floats_are_equal_as_numbers() {
    let float = |f: f64| Value::Number(Number::Float(f.to_bits()));
    assert!(value_equal(&float(0.0), &float(-0.0)));
    assert!(value_equal(&float(f64::NAN), &float(-f64::NAN)));
    assert!(!value_equal(&float(f64::INFINITY), &float(f64::NEG_INFINITY)));
    assert!(!value_equal(&float(f64::INFINITY), &float(f64::NAN)));
    assert!(!value_equal(&float(1.0), &float(-1.0)));
    assert!(!value_equal(&float(1.0), &Value::Number(Number::PosInt(1))));
}

#[test]
fn a_clone_is_equal() {
    for t in texts() {
        let v = value(&serde_yaml::from_str(t).unwrap());
        assert!(v.clone() == v);
        assert_eq!(format!("{:?}", v.clone()), format!("{v:?}"));
    }
}

#[test]
fn variables_and_mounts_compare_by_their_fields() {
    let env = |name: &str, value: Option<&str>, from: Option<Value>| EnvVar {
        name: name.to_string(),
        value: value.map(|v| v.to_string()),
        value_from: from,
    };
    assert!(env("A", Some("1"), None) == env("A", Some("1"), None));
    assert!(env("A", Some("1"), None) != env("B", Some("1"), None));
    assert!(env("A", Some("1"), None) != env("A", Some("2"), None));
    assert!(env("A", Some(""), None) != env("A", None, None));
    assert!(env("A", None, Some(Value::Null)) != env("A", None, None));
    let mount = |name: &str, path: &str| VolumeMount {
        name: name.to_string(),
        mount_path: path.to_string(),
    };
    assert!(mount("v", "/a") == mount("v", "/a"));
    assert!(mount("v", "/a") != mount("v", "/b"));
    assert!(mount("v", "/a") != mount("w", "/a"));
}

fn split(image: &str) -> (String, Option<String>) {
    parse_image(image)
}

#[test]
fn image_parts_make_up_the_image() {
    for image in [
        "",
        ":",
        "/",
        "a:",
        ":t",
        "a/b/c:1",
        "host:5000/a/b",
        "host:5000/a/b:1.2",
        "a:b:c",
        "a/:",
        "user@host/app:1",
        "größe/ü:täg",
        "app@sha256:abc",
    ] {
        match split(image) {
            (repo, Some(tag)) => {
                assert_eq!(format!("{repo}:{tag}"), image);
                assert!(!tag.contains('/') && !tag.contains(':'));
            }
            (repo, None) => assert_eq!(repo, image),
        }
    }
}

#[test]
fn image_edge_cases() {
    let some = |repo: &str, tag: &str| (repo.to_string(), Some(tag.to_string()));
    let none = |image: &str| (image.to_string(), None);
    assert_eq!(split(""), none(""));
    assert_eq!(split("a:"), some("a", ""));
    assert_eq!(split("a:b:c"), some("a:b", "c"));
    assert_eq!(split("host:5000/app"), none("host:5000/app"));
    assert_eq!(split("host:5000/"), none("host:5000/"));
    assert_eq!(split("größe/ü:täg"), some("größe/ü", "täg"));
    assert_eq!(split("user@host/app:1"), some("user@host/app", "1"));
}

#[test]
fn a_digest_is_no_tag() {
    let pinned = "registry.example.com:5000/team/app@sha256:0123abcd";
    assert_eq!(split(pinned), (pinned.to_string(), None));
    let both = "team/app:1.2@sha256:0123abcd";
    assert_eq!(split(both), (both.to_string(), None));
}
