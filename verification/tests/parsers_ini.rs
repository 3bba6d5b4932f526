use dq_core::{Format, Value};
use dq_core::parsers::ini::Ini;

#[test]
fn parse_section_and_key() {
    let doc = Ini.parse(b"[s]\nk = v\n").expect("parse simple ini");
    let Value::Object(top) = doc.value() else {
        panic!("expected top map")
    };
    let Some(Value::Object(s)) = top.get("s") else {
        panic!("expected section map for 's'")
    };
    assert_eq!(s.get("k"), Some(&Value::String("v".into())));
}

#[test]
fn parse_anonymous_section_keyed_under_empty_string() {
    let doc = Ini
        .parse(b"foo = bar\n[s]\nk = v\n")
        .expect("parse with anon section");
    let Value::Object(top) = doc.value() else {
        panic!()
    };
    let Some(Value::Object(anon)) = top.get("") else {
        panic!("anonymous section missing")
    };
    assert_eq!(anon.get("foo"), Some(&Value::String("bar".into())));
}

#[test]
fn write_round_trips_section_order() {
    let doc = Ini
        .parse(b"[c]\nx = 1\n[a]\ny = 2\n[b]\nz = 3\n")
        .expect("parse");
    let mut buf: Vec<u8> = Vec::new();
    Ini.write(&doc, &mut buf).expect("write");
    let out = String::from_utf8(buf).expect("utf8");
    let pos_c = out.find("[c]").expect("[c] missing");
    let pos_a = out.find("[a]").expect("[a] missing");
    let pos_b = out.find("[b]").expect("[b] missing");
    assert!(pos_c < pos_a, "c before a");
    assert!(pos_a < pos_b, "a before b");
}
