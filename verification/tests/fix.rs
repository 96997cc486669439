use i18n_hunt::engine::analysis::UnusedKey;
use i18n_hunt::engine::fix::{fix_document, group_by_file, remove_key, remove_keys, FixResult};
use i18n_hunt::engine::json::JsonValue;
use i18n_hunt::engine::locale::flatten_keys;

fn s(v: &str) -> JsonValue {
    JsonValue::String(v.to_string())
}

fn obj(members: Vec<(&str, JsonValue)>) -> JsonValue {
    JsonValue::Object(members.into_iter().map(|(k, v)| (k.to_string(), v)).collect())
}

fn keys_of(v: &JsonValue) -> Vec<String> {
    let mut k = flatten_keys(v);
    k.sort();
    k
}

fn unused(path: &str, key: &str) -> UnusedKey {
    UnusedKey { namespace: "ns".to_string(), key: key.to_string(), path: path.to_string() }
}

#[test]
fn removing_a_leaf_prunes_emptied_parents() {
    let mut doc = obj(vec![("form", obj(vec![("email", s("E"))])), ("title", s("T"))]);
    assert!(remove_key(&mut doc, "form.email"));
    assert_eq!(keys_of(&doc), vec!["title".to_string()]);
    match &doc {
        JsonValue::Object(members) => {
            assert_eq!(members.len(), 1);
            assert_eq!(members[0].0, "title");
        }
        _ => panic!("not an object"),
    }
}

#[test]
fn removing_keeps_non_empty_parents_and_member_order() {
    let mut doc = obj(vec![("form", obj(vec![("email", s("E")), ("password", s("P"))])), ("title", s("T"))]);
    assert!(remove_key(&mut doc, "form.email"));
    match &doc {
        JsonValue::Object(members) => {
            assert_eq!(members[0].0, "form");
            assert_eq!(members[1].0, "title");
        }
        _ => panic!("not an object"),
    }
    assert_eq!(keys_of(&doc), vec!["form.password".to_string(), "title".to_string()]);
}

#[test]
fn missing_paths_remove_nothing() {
    let mut doc = obj(vec![("form", obj(vec![("email", s("E"))])), ("title", s("T"))]);
    assert!(!remove_key(&mut doc, "form.phone"));
    assert!(!remove_key(&mut doc, "title.sub"));
    assert!(!remove_key(&mut doc, "nothing"));
    assert_eq!(keys_of(&doc), vec!["form.email".to_string(), "title".to_string()]);
    let mut top = s("x");
    assert!(!remove_key(&mut top, "x"));
}

#[test]
fn a_whole_subtree_can_be_removed() {
    let mut doc = obj(vec![("form", obj(vec![("email", s("E"))])), ("t", s("T"))]);
    assert!(remove_key(&mut doc, "form"));
    assert_eq!(keys_of(&doc), vec!["t".to_string()]);
}

#[test]
fn values_of_any_type_are_removed() {
    let mut doc = obj(vec![("a", obj(vec![("b", JsonValue::Number("5".to_string()))]))]);
    assert!(remove_key(&mut doc, "a.b"));
    assert!(matches!(&doc, JsonValue::Object(m) if m.is_empty()));
    let mut doc = obj(vec![
        ("n", JsonValue::Null),
        ("l", JsonValue::Array(vec![s("x")])),
        ("f", JsonValue::Bool(false)),
        ("k", s("v")),
    ]);
    assert_eq!(remove_keys(&mut doc, &vec!["n".to_string(), "l".to_string(), "f".to_string()]), 3);
    assert_eq!(keys_of(&doc), vec!["k".to_string()]);
    match &doc {
        JsonValue::Object(members) => assert_eq!(members.len(), 1),
        _ => panic!("not an object"),
    }
}

#[test]
fn member_names_with_dots_are_single_keys() {
    let mut doc = obj(vec![("cashDescription.default", s("x"))]);
    assert_eq!(keys_of(&doc), vec!["cashDescription.default".to_string()]);
    assert!(remove_key(&mut doc, "cashDescription.default"));
    assert!(matches!(&doc, JsonValue::Object(m) if m.is_empty()));
}

#[test]
fn dotted_names_mixed_with_nesting() {
    let mut doc = obj(vec![
        ("a", obj(vec![("b.c", s("1")), ("d", s("2"))])),
        ("a.b", obj(vec![("c", s("3"))])),
        ("e", s("4")),
    ]);
    assert_eq!(
        keys_of(&doc),
        vec!["a.b.c".to_string(), "a.d".to_string(), "e".to_string()]
    );
    let keys = vec!["a.b.c".to_string(), "e".to_string(), "a.b.c".to_string()];
    assert_eq!(remove_keys(&mut doc, &keys), 2);
    assert_eq!(keys_of(&doc), vec!["a.d".to_string()]);
    match &doc {
        JsonValue::Object(members) => {
            assert_eq!(members.len(), 1);
            assert_eq!(members[0].0, "a");
        }
        _ => panic!("not an object"),
    }
}

#[test]
fn a_second_fix_removes_nothing() {
    let mut doc = obj(vec![("x.y", s("1")), ("x", obj(vec![("z", s("2"))]))]);
    let keys = vec!["x.y".to_string(), "x.z".to_string()];
    assert_eq!(remove_keys(&mut doc, &keys), 2);
    assert_eq!(remove_keys(&mut doc, &keys), 0);
    assert!(keys_of(&doc).is_empty());
}

#[test]
fn removing_several_keys_counts_the_ones_found() {
    let mut doc = obj(vec![("a", s("1")), ("b", obj(vec![("c", s("2"))])), ("d", s("3"))]);
    let keys = vec!["a".to_string(), "b.c".to_string(), "x".to_string(), "a".to_string()];
    assert_eq!(remove_keys(&mut doc, &keys), 2);
    assert_eq!(keys_of(&doc), vec!["d".to_string()]);
}

#[test]
fn fix_result_counts_only_changed_files() {
    let mut r = FixResult::new();
    assert!(!r.record_file(0));
    assert!(r.record_file(3));
    assert!(r.record_file(1));
    assert_eq!(r.removed_keys, 4);
    assert_eq!(r.touched_files, 2);
}

#[test]
fn unused_keys_are_grouped_by_file_in_path_order() {
    let keys = vec![
        unused("l/b.json", "x"),
        unused("l/a.json", "y"),
        unused("l/b.json", "z"),
        unused("l/a/c.json", "w"),
    ];
    let groups = group_by_file(&keys);
    let summary: Vec<(String, Vec<String>)> = groups.iter().map(|g| (g.path.clone(), g.keys.clone())).collect();
    assert_eq!(
        summary,
        vec![
            ("l/a/c.json".to_string(), vec!["w".to_string()]),
            ("l/a.json".to_string(), vec!["y".to_string()]),
            ("l/b.json".to_string(), vec!["x".to_string(), "z".to_string()]),
        ]
    );
}

#[test]
fn paths_with_the_same_components_form_one_group() {
    let keys = vec![unused("l//a.json", "x"), unused("l/a.json", "y")];
    let groups = group_by_file(&keys);
    assert_eq!(groups.len(), 1);
    assert_eq!(groups[0].path, "l//a.json");
    assert_eq!(groups[0].keys, vec!["x".to_string(), "y".to_string()]);
}

#[test]
fn paths_are_grouped_by_path_components() {
    let keys = vec![
        unused("/a.json", "x"),
        unused("a.json", "y"),
        unused("l/./b.json", "z"),
        unused("l/b.json", "w"),
        unused("./c.json", "v"),
        unused("../d.json", "u"),
    ];
    let groups = group_by_file(&keys);
    let summary: Vec<(String, Vec<String>)> = groups.iter().map(|g| (g.path.clone(), g.keys.clone())).collect();
    assert_eq!(
        summary,
        vec![
            ("/a.json".to_string(), vec!["x".to_string()]),
            ("./c.json".to_string(), vec!["v".to_string()]),
            ("../d.json".to_string(), vec!["u".to_string()]),
            ("a.json".to_string(), vec!["y".to_string()]),
            ("l/./b.json".to_string(), vec!["z".to_string(), "w".to_string()]),
        ]
    );
}

#[test]
fn fixing_a_document_text() {
    let text = "{\"cashDescription.default\": \"x\", \"k\": \"v\"}";
    let keys = vec!["cashDescription.default".to_string()];
    let (n, out) = fix_document(text, &keys).unwrap();
    assert_eq!(n, 1);
    assert_eq!(out, Some("{\n  \"k\": \"v\"\n}\n".to_string()));

    let (n, out) = fix_document("{\"k\": \"v\"}", &keys).unwrap();
    assert_eq!(n, 0);
    assert_eq!(out, None);

    assert!(fix_document("not json", &keys).is_none());
}
