use i18n_hunt::engine::json::{parse_json, render_json, JsonValue};
use i18n_hunt::engine::locale::{
    derive_namespace, flatten_keys, is_locale_file, load_locale, locale_from_json,
};

fn s(v: &str) -> JsonValue {
    JsonValue::String(v.to_string())
}

fn obj(members: Vec<(&str, JsonValue)>) -> JsonValue {
    JsonValue::Object(members.into_iter().map(|(k, v)| (k.to_string(), v)).collect())
}

fn sorted(mut v: Vec<String>) -> Vec<String> {
    v.sort();
    v
}

#[test]
fn nested_objects_flatten_to_dotted_keys() {
    let doc = obj(vec![("form", obj(vec![("email", s("E-mail")), ("password", s("Password"))])), ("title", s("T"))]);
    assert_eq!(
        sorted(flatten_keys(&doc)),
        vec!["form.email".to_string(), "form.password".to_string(), "title".to_string()]
    );
}

#[test]
fn only_string_leaves_become_keys() {
    let doc = obj(vec![
        ("n", JsonValue::Number("3".to_string())),
        ("b", JsonValue::Bool(true)),
        ("z", JsonValue::Null),
        ("list", JsonValue::Array(vec![s("x")])),
        ("empty", obj(vec![])),
        ("ok", s("yes")),
    ]);
    assert_eq!(flatten_keys(&doc), vec!["ok".to_string()]);
}

#[test]
fn top_level_string_gives_no_key() {
    assert!(flatten_keys(&s("hello")).is_empty());
}

#[test]
fn dotted_literal_keys_and_nesting_that_collide_give_one_key() {
    let doc = obj(vec![("a.b", s("x")), ("a", obj(vec![("b", s("y"))]))]);
    assert_eq!(flatten_keys(&doc), vec!["a.b".to_string()]);
}

#[test]
fn empty_member_names_follow_the_dotted_path() {
    let doc = obj(vec![("", obj(vec![("a", s("x"))])), ("k", obj(vec![("", s("y"))]))]);
    assert_eq!(sorted(flatten_keys(&doc)), vec!["a".to_string(), "k.".to_string()]);
}

#[test]
fn namespace_is_relative_path_without_extension() {
    assert_eq!(derive_namespace("Auth/Login.json"), "Auth/Login");
    assert_eq!(derive_namespace("Common.json"), "Common");
    assert_eq!(derive_namespace("JeevesPay/BulkPayments.json"), "JeevesPay/BulkPayments");
    assert_eq!(derive_namespace("a.b/c"), "a.b/c");
    assert_eq!(derive_namespace("dir/archive.tar.gz"), "dir/archive.tar");
    assert_eq!(derive_namespace("dir/.hidden"), "dir/.hidden");
    assert_eq!(derive_namespace("dir/name."), "dir/name");
    assert_eq!(derive_namespace(""), "");
}

#[test]
fn namespace_follows_path_file_name_rules() {
    assert_eq!(derive_namespace("Wallet.json/"), "Wallet");
    assert_eq!(derive_namespace("Auth/Login.json/./"), "Auth/Login");
    assert_eq!(derive_namespace("Auth/"), "Auth");
    assert_eq!(derive_namespace("Auth/.."), "Auth/..");
    assert_eq!(derive_namespace("./"), "./");
}

#[test]
fn locale_file_from_text() {
    let l = load_locale(
        "Wallet.json",
        "locales/Wallet.json".to_string(),
        "{\"cashDescription.default\": \"x\", \"card\": {\"title\": \"T\", \"n\": 3}}",
    )
    .unwrap();
    assert_eq!(l.namespace, "Wallet");
    assert_eq!(l.path, "locales/Wallet.json");
    let mut keys = l.keys.clone();
    keys.sort();
    assert_eq!(keys, vec!["card.title".to_string(), "cashDescription.default".to_string()]);
    assert!(load_locale("x.json", "x.json".to_string(), "{ not json").is_none());
}

#[test]
fn json_text_is_read_and_written_by_serde_json() {
    let doc = parse_json("{\"b\": \"1\", \"a\": {\"c\": 2.5, \"d\": [true, null]}}").unwrap();
    match &doc {
        JsonValue::Object(members) => {
            assert_eq!(members.len(), 2);
            assert_eq!(members[0].0, "a");
            assert_eq!(members[1].0, "b");
            match &members[0].1 {
                JsonValue::Object(inner) => {
                    assert!(matches!(&inner[0].1, JsonValue::Number(n) if n == "2.5"));
                    assert!(matches!(&inner[1].1, JsonValue::Array(items) if items.len() == 2));
                }
                _ => panic!("not an object"),
            }
        }
        _ => panic!("not an object"),
    }
    assert!(parse_json("[1,").is_none());
    let text = render_json(&obj(vec![("k", s("v"))])).unwrap();
    assert_eq!(text, "{\n  \"k\": \"v\"\n}");
}

#[test]
fn namespace_uses_forward_slashes() {
    assert_eq!(derive_namespace("Auth\\Login.json"), "Auth/Login");
}

#[test]
fn locale_file_from_document() {
    let doc = obj(vec![("title", s("T"))]);
    let l = locale_from_json("Auth/Login.json", "locales/en-US/Auth/Login.json".to_string(), &doc);
    assert_eq!(l.namespace, "Auth/Login");
    assert_eq!(l.path, "locales/en-US/Auth/Login.json");
    assert_eq!(l.keys, vec!["title".to_string()]);
}

#[test]
fn only_json_files_are_locale_catalogs() {
    assert!(is_locale_file("locales/en-US/Common.json"));
    assert!(is_locale_file("locales/Auth/Login.json"));
    assert!(!is_locale_file("locales/README.md"));
    assert!(!is_locale_file("locales/.json"));
    assert!(!is_locale_file("locales/Common.JSON"));
    assert!(!is_locale_file("locales/json"));
    assert!(is_locale_file("locales/Common.json/"));
    assert!(is_locale_file("locales/Common.json/."));
    assert!(!is_locale_file("locales/Common.json/.."));
}
