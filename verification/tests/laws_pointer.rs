use dq_core::numbers::{index_text, parse_index, parse_int, signed_text};
use dq_core::pointer::{escape_segment, unescape_segment};
use dq_core::suggest::{did_you_mean, levenshtein};
use dq_core::tree_edit::{delete_value_at, set_value_at};
use dq_core::{enumerate_pointers, Document, Error, PathErrorKind, Pointer, Segment, Value, ValueMap};

fn chars(s: &str) -> Vec<char> {
    s.chars().collect()
}

fn map(entries: &[(&str, Value)]) -> Value {
    let mut m = ValueMap::new();
    for (key, value) in entries {
        m.insert((*key).to_owned(), value.clone());
    }
    Value::Object(m)
}

fn sample() -> Value {
    map(&[
        ("name", Value::String("dq".into())),
        (
            "ports",
            Value::Array(vec![Value::Int(80), Value::Int(443)]),
        ),
        ("a/b", map(&[("m~n", Value::Bool(true))])),
    ])
}

#[test]
fn escaping_and_unescaping_are_inverse() {
    for raw in ["plain", "a/b", "m~n", "~1", "/~/", ""] {
        let escaped = escape_segment(raw);
        assert!(!escaped.contains('/'));
        assert_eq!(unescape_segment(&chars(&escaped)), Ok(raw.to_owned()));
    }
    assert_eq!(escape_segment("a/b~c"), "a~1b~0c");
}

#[test]
fn a_tilde_without_zero_or_one_is_refused() {
    assert!(unescape_segment(&chars("a~2")).is_err());
    assert!(unescape_segment(&chars("a~")).is_err());
}

#[test]
fn canonical_text_parses_back() {
    for text in ["", "/a", "/a/0/b", "/a~1b/m~0n"] {
        let pointer = Pointer::parse(text).expect("pointer parses");
        assert_eq!(pointer.as_canonical(), text);
        assert_eq!(Pointer::parse(&pointer.as_canonical()).expect("again"), pointer);
    }
}

#[test]
fn indices_in_decimal_parse_back() {
    for n in [0usize, 7, 10, 443, usize::MAX] {
        assert_eq!(parse_index(&chars(&index_text(n))), Some(n));
    }
    assert_eq!(parse_index(&chars("18446744073709551616")), None);
    for n in [0i64, -1, 42, i64::MIN, i64::MAX] {
        assert_eq!(parse_int(&chars(&signed_text(n))), Some(n));
    }
    assert_eq!(signed_text(i64::MIN), "-9223372036854775808");
    assert_eq!(parse_int(&chars("9223372036854775808")), None);
}

#[test]
fn the_root_resolves_to_the_whole() {
    let value = sample();
    assert_eq!(Pointer::default().resolve(&value).expect("root"), &value);
}

#[test]
fn resolving_in_two_steps_is_resolving_at_once() {
    let value = sample();
    let outer = Pointer::parse("/a~1b").expect("outer");
    let inner = Pointer::parse("/m~0n").expect("inner");
    let whole = Pointer::parse("/a~1b/m~0n").expect("whole");
    let halfway = outer.resolve(&value).expect("outer resolves");
    assert_eq!(
        inner.resolve(halfway).expect("inner resolves"),
        whole.resolve(&value).expect("whole resolves")
    );
}

#[test]
fn enumerated_pointers_resolve_to_nodes_of_the_shown_kind() {
    let value = sample();
    let doc = Document::single(value.clone());
    let listed = enumerate_pointers(&doc);
    let texts: Vec<String> = listed.iter().map(|(p, _)| p.as_canonical()).collect();
    assert_eq!(
        texts,
        vec!["", "/name", "/ports", "/ports/0", "/ports/1", "/a~1b", "/a~1b/m~0n"]
    );
    for (pointer, kind) in &listed {
        let node = pointer.resolve(&value).expect("listed pointer resolves");
        assert_eq!(node.type_label(), *kind);
    }
}

#[test]
fn an_inserted_entry_is_found_and_the_others_stay() {
    let mut m = ValueMap::new();
    m.insert("a".into(), Value::Int(1));
    m.insert("b".into(), Value::Int(2));
    m.insert("a".into(), Value::Int(3));
    assert_eq!(m.len(), 2);
    assert_eq!(m.get("a"), Some(&Value::Int(3)));
    assert_eq!(m.get("b"), Some(&Value::Int(2)));
    assert_eq!(m.entries[0].0, "a");
    assert!(m.shift_remove("a"));
    assert!(!m.shift_remove("a"));
    assert_eq!(m.get("a"), None);
    assert_eq!(m.get("b"), Some(&Value::Int(2)));
}

#[test]
fn what_was_set_in_a_tree_resolves_and_the_rest_stays() {
    let mut value = sample();
    let target = Pointer::parse("/ports/1").expect("pointer");
    let other = Pointer::parse("/ports/0").expect("pointer");
    set_value_at(&mut value, &target, Value::Int(8443)).expect("set");
    assert_eq!(target.resolve(&value).expect("target"), &Value::Int(8443));
    assert_eq!(other.resolve(&value).expect("other"), &Value::Int(80));
}

#[test]
fn a_dash_appends_to_an_array() {
    let mut value = sample();
    let pointer = Pointer::parse("/ports/-").expect("pointer");
    assert!(pointer.is_array_append());
    set_value_at(&mut value, &pointer, Value::Int(22)).expect("append");
    let appended = Pointer::parse("/ports/2").expect("pointer");
    assert_eq!(appended.resolve(&value).expect("appended"), &Value::Int(22));
}

#[test]
fn a_deleted_key_is_missing_and_a_failed_delete_changes_nothing() {
    let mut value = sample();
    let before = value.clone();
    let absent = Pointer::parse("/absent").expect("pointer");
    assert!(delete_value_at(&mut value, &absent).is_err());
    assert_eq!(value, before);
    let name = Pointer::parse("/name").expect("pointer");
    delete_value_at(&mut value, &name).expect("delete");
    match name.resolve(&value) {
        Err(Error::Path { kind, .. }) => assert_eq!(kind, PathErrorKind::MissingKey),
        other => panic!("expected a missing key, got {other:?}"),
    }
}

#[test]
fn distance_is_zero_for_equal_texts_only_and_symmetric() {
    let pairs = [("", "abc", 3), ("flaw", "lawn", 2), ("same", "same", 0), ("a", "b", 1)];
    for (a, b, expected) in pairs {
        assert_eq!(levenshtein(&chars(a), &chars(b)), expected);
        assert_eq!(levenshtein(&chars(b), &chars(a)), expected);
        assert_eq!(expected == 0, a == b);
    }
}

#[test]
fn suggestions_are_close_candidates_in_order_of_distance() {
    let found = did_you_mean("port", &["prot", "ports", "host", "completely"]);
    assert_eq!(found.first().map(String::as_str), Some("ports"));
    assert!(!found.contains(&"completely".to_owned()));
    assert!(found.contains(&"prot".to_owned()));
}

#[test]
fn path_errors_name_their_kind() {
    let value = sample();
    let cases = [
        ("/nope", PathErrorKind::MissingKey),
        ("/ports/9", PathErrorKind::OutOfBounds),
    ];
    for (text, expected) in cases {
        let pointer = Pointer::parse(text).expect("pointer");
        match pointer.resolve(&value) {
            Err(Error::Path { kind, pointer, .. }) => {
                assert_eq!(kind, expected);
                assert_eq!(pointer, text);
            }
            other => panic!("expected a path error, got {other:?}"),
        }
    }
    let through = Pointer::parse("/name/x").expect("pointer");
    match through.resolve(&value) {
        Err(Error::Path { kind: PathErrorKind::TypeMismatch { .. }, matched_prefix, .. }) => {
            assert_eq!(matched_prefix, "/name");
        }
        other => panic!("expected a type mismatch, got {other:?}"),
    }
}

#[test]
fn a_segment_that_is_no_index_is_a_mismatch_on_an_array() {
    let value = Value::Array(vec![Value::Int(1)]);
    let pointer = Pointer::new(vec![Segment::Key("x".into())]);
    assert!(matches!(
        pointer.resolve(&value),
        Err(Error::Path { kind: PathErrorKind::TypeMismatch { .. }, .. })
    ));
}
