use dq_core::{Document, Value, ValueMap, enumerate_pointers};

#[test]
fn enumerate_emits_root_for_scalar() {
    let doc = Document::single(Value::Int(7));
    let pointers = enumerate_pointers(&doc);
    assert_eq!(pointers.len(), 1);
    assert_eq!(pointers[0].0.as_canonical(), "");
    assert_eq!(pointers[0].1, "int");
}

#[test]
fn enumerate_walks_objects_in_insertion_order() {
    let mut map = ValueMap::new();
    map.insert("z".to_owned(), Value::Int(1));
    map.insert("a".to_owned(), Value::Int(2));
    let doc = Document::single(Value::Object(map));
    let pointers: Vec<String> = enumerate_pointers(&doc)
        .into_iter()
        .map(|(p, _)| p.as_canonical())
        .collect();
    assert_eq!(pointers, vec!["", "/z", "/a"]);
}

#[test]
fn enumerate_prefixes_multi_doc_with_index() {
    let doc = Document::multi(vec![Value::Int(1), Value::Int(2)]);
    let pointers: Vec<String> = enumerate_pointers(&doc)
        .into_iter()
        .map(|(p, _)| p.as_canonical())
        .collect();
    assert_eq!(pointers, vec!["/0", "/1"]);
}

#[test]
fn enumerate_lists_every_node_once_and_parents_first() {
    let mut inner = ValueMap::new();
    inner.insert("x".to_owned(), Value::Array(vec![Value::Null, Value::Bool(true)]));
    inner.insert("".to_owned(), Value::Int(1));
    let tree = Value::Array(vec![Value::Object(inner), Value::Array(Vec::new())]);
    let listed = |doc: &Document| -> Vec<(String, &'static str)> {
        enumerate_pointers(doc).into_iter().map(|(p, t)| (p.as_canonical(), t)).collect()
    };
    let single = listed(&Document::single(tree.clone()));
    for (i, (pointer, _)) in single.iter().enumerate() {
        assert!(!single[..i].iter().any(|(p, _)| p == pointer), "{pointer} twice");
        if let Some((parent, _)) = pointer.rsplit_once('/') {
            assert!(single[..i].iter().any(|(p, _)| p == parent), "{pointer} before its parent");
        }
    }
    for pointer in ["", "/0", "/0/x", "/0/x/0", "/0/x/1", "/0/", "/1"] {
        assert!(single.iter().any(|(p, _)| p == pointer), "{pointer} is missing");
    }
    assert_eq!(single.len(), 7);
    let Value::Array(items) = tree else { panic!() };
    assert_eq!(listed(&Document::multi(items)), single[1..].to_vec());
}
