use dq_core::{Error, PathErrorKind, Pointer, Segment, Value, ValueMap};
use dq_core::suggest::{did_you_mean, levenshtein};

fn chars(s: &str) -> Vec<char> {
    s.chars().collect()
}

#[test]
fn parse_root_is_empty() {
    let p = Pointer::parse("").unwrap();
    assert!(p.is_root(), "empty string must address root");
    assert_eq!(p.segments(), &[] as &[Segment]);
}

#[test]
fn parse_single_key() {
    let p = Pointer::parse("/foo").unwrap();
    assert_eq!(p.segments(), &[Segment::Key("foo".into())]);
}

#[test]
fn parse_nested_keys() {
    let p = Pointer::parse("/foo/bar").unwrap();
    assert_eq!(
        p.segments(),
        &[Segment::Key("foo".into()), Segment::Key("bar".into())]
    );
}

#[test]
fn parse_numeric_segments_kept_as_keys() {
    let p = Pointer::parse("/0/1").unwrap();
    assert_eq!(
        p.segments(),
        &[Segment::Key("0".into()), Segment::Key("1".into())]
    );
}

#[test]
fn parse_unescapes_tilde_zero_to_tilde() {
    let p = Pointer::parse("/a~0b").unwrap();
    assert_eq!(p.segments(), &[Segment::Key("a~b".into())]);
}

#[test]
fn parse_unescapes_tilde_one_to_slash() {
    let p = Pointer::parse("/a~1b").unwrap();
    assert_eq!(p.segments(), &[Segment::Key("a/b".into())]);
}

#[test]
fn parse_unescapes_tilde_and_slash() {
    let p = Pointer::parse("/a~0b/c~1d").unwrap();
    assert_eq!(
        p.segments(),
        &[Segment::Key("a~b".into()), Segment::Key("c/d".into())]
    );
}

#[test]
fn parse_rejects_dangling_tilde() {
    let err = Pointer::parse("/foo~").unwrap_err();
    assert_eq!(err.kind_name(), "path");
}

#[test]
fn parse_rejects_unescaped_tilde() {
    let err = Pointer::parse("/foo~bar").unwrap_err();
    assert_eq!(err.kind_name(), "path");
}

#[test]
fn parse_rejects_empty_segment() {
    let err = Pointer::parse("//").unwrap_err();
    assert_eq!(err.kind_name(), "path");
}

#[test]
fn parse_rejects_no_leading_slash() {
    let err = Pointer::parse("foo").unwrap_err();
    assert_eq!(err.kind_name(), "path");
}

#[test]
fn parse_keeps_leading_zero_index_as_key() {
    let p = Pointer::parse("/00").unwrap();
    assert_eq!(p.segments(), &[Segment::Key("00".into())]);
}

#[test]
fn parse_very_deep_pointer() {
    let raw = "/a/b/c/d/e/f/g/h/i/j/k/l";
    let p = Pointer::parse(raw).unwrap();
    let segs = p.segments();
    assert_eq!(segs.len(), 12, "expected 12 segments, got {}", segs.len());
    assert_eq!(segs.first(), Some(&Segment::Key("a".into())));
    assert_eq!(segs.last(), Some(&Segment::Key("l".into())));
}

#[test]
fn is_array_append_only_true_when_last_segment_is_dash() {
    let p = Pointer::parse("/list/-").unwrap();
    assert!(p.is_array_append(), "tail `-` is the array-append marker");

    let mid = Pointer::parse("/-/x").unwrap();
    assert!(
        !mid.is_array_append(),
        "tail `x` not `-` → should not flag as append",
    );

    assert!(!Pointer::default().is_array_append());

    let numeric = Pointer::parse("/list/0").unwrap();
    assert!(!numeric.is_array_append());
}

#[test]
fn with_segment_appends_without_mutating_original() {
    let base = Pointer::parse("/a").unwrap();
    let child = base.with_segment(Segment::Key("b".into()));
    assert_eq!(child.as_canonical(), "/a/b");
    assert_eq!(base.as_canonical(), "/a");
}

#[test]
fn push_then_pop_round_trips() {
    let mut p = Pointer::default();
    p.push_segment(Segment::Key("foo".into()));
    let popped = p.pop_segment();
    assert_eq!(popped, Some(Segment::Key("foo".into())));
    assert_eq!(p, Pointer::default());
}

#[test]
fn pop_on_empty_returns_none() {
    let mut p = Pointer::default();
    assert_eq!(p.pop_segment(), None);
    assert_eq!(p, Pointer::default());
}

#[test]
fn push_segment_extends_segments() {
    let mut p = Pointer::parse("/a").unwrap();
    p.push_segment(Segment::Key("b".into()));
    assert_eq!(p.segments().len(), 2);
    assert_eq!(p.segments().last(), Some(&Segment::Key("b".into())));
    assert_eq!(p.as_canonical(), "/a/b");
}

#[test]
fn push_pop_balanced_walk_returns_to_default() {
    let mut p = Pointer::default();
    for key in ["spec", "template", "spec"] {
        p.push_segment(Segment::Key(key.into()));
        let _emit = p.clone();
        p.pop_segment();
    }
    assert_eq!(
        p,
        Pointer::default(),
        "balanced push/pop must restore state"
    );
}

#[test]
fn parse_unicode_keys() {
    let p = Pointer::parse("/мета/имя").unwrap();
    assert_eq!(
        p.segments(),
        &[Segment::Key("мета".into()), Segment::Key("имя".into())]
    );
}

#[test]
fn canonical_form_re_escapes() {
    let p = Pointer::new(vec![Segment::Key("app.kubernetes.io/name".into())]);
    assert_eq!(p.as_canonical(), "/app.kubernetes.io~1name");
}

#[test]
fn resolve_object_key() {
    let mut map = ValueMap::new();
    map.insert("port".into(), Value::Int(8080));
    let v = Value::Object(map);
    let p = Pointer::parse("/port").unwrap();
    assert_eq!(p.resolve(&v).unwrap(), &Value::Int(8080));
}

#[test]
fn resolve_missing_key_suggests_close() {
    let mut map = ValueMap::new();
    map.insert("port".into(), Value::Int(8080));
    let v = Value::Object(map);
    let p = Pointer::parse("/prot").unwrap();
    let err = p.resolve(&v).unwrap_err();
    match err {
        Error::Path {
            did_you_mean, kind, ..
        } => {
            assert_eq!(kind, PathErrorKind::MissingKey);
            assert_eq!(did_you_mean, vec!["port".to_owned()]);
        }
        other => panic!("unexpected error: {other:?}"),
    }
}

#[test]
fn resolve_array_index() {
    let v = Value::Array(vec![Value::Int(1), Value::Int(2)]);
    let p = Pointer::parse("/1").unwrap();
    assert_eq!(p.resolve(&v).unwrap(), &Value::Int(2));
}

#[test]
fn resolve_out_of_bounds() {
    let v = Value::Array(vec![Value::Int(1)]);
    let p = Pointer::parse("/9").unwrap();
    let err = p.resolve(&v).unwrap_err();
    match err {
        Error::Path { kind, .. } => assert_eq!(kind, PathErrorKind::OutOfBounds),
        _ => panic!("wrong variant"),
    }
}

#[test]
fn levenshtein_basic() {
    assert_eq!(levenshtein(&chars("kitten"), &chars("sitting")), 3);
    assert_eq!(levenshtein(&chars("port"), &chars("prot")), 2);
}

#[test]
fn did_you_mean_orders_and_caps() {
    let suggestions = did_you_mean("port", &["host", "prot", "porte", "porter"]);
    assert_eq!(suggestions, vec!["porte", "host", "porter"]);
}

#[test]
fn did_you_mean_returns_distance_ordered() {
    let suggestions = did_you_mean("port", &["host", "prot", "porte"]);
    assert_eq!(
        suggestions,
        vec!["porte".to_owned(), "host".to_owned(), "prot".to_owned()],
        "expected distance-1 candidate first, ties broken lexicographically"
    );
}

#[test]
fn did_you_mean_filters_distant_candidates() {
    let suggestions = did_you_mean("port", &["entirely_unrelated", "prot"]);
    assert_eq!(suggestions, vec!["prot"]);
}

#[test]
fn did_you_mean_kubernetes_typo() {
    let suggestions = did_you_mean("kubernates", &["kubernetes"]);
    assert_eq!(
        suggestions,
        vec!["kubernetes".to_owned()],
        "k8s typo `kubernates` must suggest `kubernetes` (distance ≤ 2)"
    );
}

#[test]
fn did_you_mean_no_candidates_returns_empty() {
    let suggestions = did_you_mean("foo", &["zzzzzzzz", "qqqqqqqq"]);
    assert!(
        suggestions.is_empty(),
        "expected no suggestions, got: {suggestions:?}"
    );
    let no_candidates = did_you_mean("foo", &[]);
    assert!(no_candidates.is_empty());
}

#[test]
fn did_you_mean_beyond_distance_two_filtered() {
    let suggestions = did_you_mean("port", &["aaaa", "prtZZ", "pXrtY"]);
    assert_eq!(
        suggestions,
        vec!["pXrtY".to_owned()],
        "only candidates within distance 2 of `port` are returned"
    );
}

#[test]
fn did_you_mean_caps_at_three() {
    let suggestions = did_you_mean("port", &["pXrt", "pYrt", "pZrt", "aort", "bort"]);
    assert_eq!(
        suggestions.len(),
        3,
        "did_you_mean must cap result at 3, got: {suggestions:?}"
    );
    assert_eq!(suggestions, vec!["aort", "bort", "pXrt"]);
}

#[test]
fn did_you_mean_breaks_ties_lexicographically() {
    let suggestions = did_you_mean("port", &["pZrt", "pYrt", "pXrt"]);
    assert_eq!(suggestions, vec!["pXrt", "pYrt", "pZrt"]);
}

#[test]
fn levenshtein_is_a_distance() {
    let words = ["", "a", "port", "prot", "porte", "sitting", "kitten", "étude"];
    for x in words {
        for y in words {
            let d = levenshtein(&chars(x), &chars(y));
            let (m, n) = (chars(x).len(), chars(y).len());
            assert!(m.abs_diff(n) <= d && d <= m.max(n), "{x} {y}");
            assert_eq!(d, levenshtein(&chars(y), &chars(x)), "{x} {y}");
            for z in words {
                let detour = levenshtein(&chars(x), &chars(z)) + levenshtein(&chars(z), &chars(y));
                assert!(d <= detour, "{x} {z} {y}");
            }
        }
    }
    assert_eq!(levenshtein(&chars("port"), &chars("pxort")), 1);
    assert_eq!(levenshtein(&chars("port"), &chars("pot")), 1);
    assert_eq!(levenshtein(&chars("port"), &chars("part")), 1);
}

#[test]
fn did_you_mean_leaves_out_no_better_candidate() {
    let found = did_you_mean("port", &["pXYt", "pots", "part", "ports", "port", "far away"]);
    assert_eq!(found, vec!["port", "part", "ports"]);
    assert_eq!(did_you_mean("port", &["prot", "prot"]), vec!["prot", "prot"]);
}
