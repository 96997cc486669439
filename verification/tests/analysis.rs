use i18n_hunt::engine::analysis::{analyze, AnalysisResult};
use i18n_hunt::engine::locale::LocaleFile;
use i18n_hunt::engine::source::{Usage, UsageKind};

fn locale(namespace: &str, path: &str, keys: &[&str]) -> LocaleFile {
    LocaleFile {
        namespace: namespace.to_string(),
        path: path.to_string(),
        keys: keys.iter().map(|k| k.to_string()).collect(),
    }
}

fn usage(namespaces: &[&str], kind: UsageKind, line: usize) -> Usage {
    Usage {
        path: "src/App.tsx".to_string(),
        line,
        namespaces: namespaces.iter().map(|n| n.to_string()).collect(),
        kind,
    }
}

fn unused_pairs(result: &AnalysisResult) -> Vec<(String, String, String)> {
    result
        .unused_keys
        .iter()
        .map(|u| (u.namespace.clone(), u.key.clone(), u.path.clone()))
        .collect()
}

#[test]
fn static_usage_protects_exact_key() {
    let locales = vec![locale("Auth/Login", "l/Auth/Login.json", &["title", "subtitle"])];
    let usages = vec![usage(&["Auth/Login"], UsageKind::Static("title".to_string()), 3)];
    let result = analyze(&locales, &usages);
    assert_eq!(
        unused_pairs(&result),
        vec![("Auth/Login".to_string(), "subtitle".to_string(), "l/Auth/Login.json".to_string())]
    );
    assert!(result.dynamic_usages.is_empty());
}

#[test]
fn prefix_usage_protects_keys_with_prefix() {
    let locales = vec![locale("Common", "l/Common.json", &["form.email", "form.password", "formal", "title"])];
    let usages = vec![usage(&["Common"], UsageKind::Prefix("form.".to_string()), 1)];
    let result = analyze(&locales, &usages);
    let keys: Vec<String> = result.unused_keys.iter().map(|u| u.key.clone()).collect();
    assert_eq!(keys, vec!["formal".to_string(), "title".to_string()]);
}

#[test]
fn dynamic_usage_is_reported_and_protects_nothing() {
    let locales = vec![locale("Common", "l/Common.json", &["a"])];
    let usages = vec![usage(&["Common", "Auth"], UsageKind::Dynamic, 42)];
    let result = analyze(&locales, &usages);
    assert_eq!(result.unused_keys.len(), 1);
    assert_eq!(result.dynamic_usages.len(), 1);
    let site = &result.dynamic_usages[0];
    assert_eq!(site.path, "src/App.tsx");
    assert_eq!(site.line, 42);
    assert_eq!(site.namespaces, vec!["Common".to_string(), "Auth".to_string()]);
}

#[test]
fn usage_is_attributed_to_first_namespace_defining_the_key() {
    // useTranslation(["Auth/Login", "Common"]); t("sharedFallback")
    let locales = vec![
        locale("Auth/Login", "l/Auth/Login.json", &["title"]),
        locale("Common", "l/Common.json", &["sharedFallback", "title"]),
    ];
    let usages = vec![usage(&["Auth/Login", "Common"], UsageKind::Static("sharedFallback".to_string()), 2)];
    let result = analyze(&locales, &usages);
    assert_eq!(
        unused_pairs(&result),
        vec![
            ("Auth/Login".to_string(), "title".to_string(), "l/Auth/Login.json".to_string()),
            ("Common".to_string(), "title".to_string(), "l/Common.json".to_string()),
        ]
    );
}

#[test]
fn first_namespace_wins_when_several_define_the_key() {
    let locales = vec![
        locale("A", "l/A.json", &["title"]),
        locale("B", "l/B.json", &["title"]),
    ];
    let usages = vec![usage(&["A", "B"], UsageKind::Static("title".to_string()), 1)];
    let result = analyze(&locales, &usages);
    assert_eq!(unused_pairs(&result), vec![("B".to_string(), "title".to_string(), "l/B.json".to_string())]);
}

#[test]
fn unknown_key_falls_back_to_first_namespace() {
    let locales = vec![locale("A", "l/A.json", &["x"]), locale("B", "l/B.json", &["x"])];
    let usages = vec![usage(&["B", "A"], UsageKind::Static("missing".to_string()), 1)];
    let result = analyze(&locales, &usages);
    assert_eq!(result.unused_keys.len(), 2);
}

#[test]
fn usage_without_namespace_protects_nothing() {
    let locales = vec![locale("A", "l/A.json", &["title"])];
    let usages = vec![usage(&[], UsageKind::Static("title".to_string()), 1)];
    let result = analyze(&locales, &usages);
    assert_eq!(result.unused_keys.len(), 1);
}

#[test]
fn keys_of_other_namespaces_are_not_protected() {
    let locales = vec![locale("A", "l/A.json", &["title"]), locale("B", "l/B.json", &["title"])];
    let usages = vec![usage(&["A"], UsageKind::Static("title".to_string()), 1)];
    let result = analyze(&locales, &usages);
    assert_eq!(unused_pairs(&result), vec![("B".to_string(), "title".to_string(), "l/B.json".to_string())]);
}

#[test]
fn prefix_resolution_uses_namespace_with_matching_key() {
    let locales = vec![
        locale("A", "l/A.json", &["other"]),
        locale("B", "l/B.json", &["auth.login", "auth.logout", "zzz"]),
    ];
    let usages = vec![usage(&["A", "B"], UsageKind::Prefix("auth.".to_string()), 1)];
    let result = analyze(&locales, &usages);
    let keys: Vec<String> = result.unused_keys.iter().map(|u| u.key.clone()).collect();
    assert_eq!(keys, vec!["other".to_string(), "zzz".to_string()]);
}

#[test]
fn later_locale_with_same_namespace_is_the_one_consulted() {
    // Two files map to namespace "A": resolution looks at the later one.
    let locales = vec![locale("A", "l/A.json", &["k"]), locale("A", "l/A.yaml", &["j"])];
    let usages = vec![usage(&["B", "A"], UsageKind::Static("k".to_string()), 1)];
    let result = analyze(&locales, &usages);
    // "k" is not in the later "A" catalog, so the usage falls back to "B":
    // nothing in "A" is protected.
    assert_eq!(result.unused_keys.len(), 2);
}

#[test]
fn adding_usages_never_adds_unused_keys() {
    let locales = vec![locale("A", "l/A.json", &["a", "b", "c"])];
    let few = vec![usage(&["A"], UsageKind::Static("a".to_string()), 1)];
    let mut more = vec![usage(&["A"], UsageKind::Static("a".to_string()), 1)];
    more.push(usage(&["A"], UsageKind::Prefix("b".to_string()), 2));
    let r1 = analyze(&locales, &few);
    let r2 = analyze(&locales, &more);
    let k1: Vec<String> = r1.unused_keys.iter().map(|u| u.key.clone()).collect();
    let k2: Vec<String> = r2.unused_keys.iter().map(|u| u.key.clone()).collect();
    assert_eq!(k1, vec!["b".to_string(), "c".to_string()]);
    assert_eq!(k2, vec!["c".to_string()]);
    assert!(k2.iter().all(|k| k1.contains(k)));
}

#[test]
fn usage_order_and_repetition_do_not_matter() {
    let locales = vec![locale("A", "l/A.json", &["a", "b", "c"])];
    let u1 = vec![
        usage(&["A"], UsageKind::Static("a".to_string()), 1),
        usage(&["A"], UsageKind::Static("c".to_string()), 2),
    ];
    let u2 = vec![
        usage(&["A"], UsageKind::Static("c".to_string()), 2),
        usage(&["A"], UsageKind::Static("a".to_string()), 1),
        usage(&["A"], UsageKind::Static("a".to_string()), 1),
    ];
    assert_eq!(unused_pairs(&analyze(&locales, &u1)), unused_pairs(&analyze(&locales, &u2)));
}

#[test]
fn empty_inputs_give_empty_result() {
    let result = analyze(&[], &[]);
    assert!(result.unused_keys.is_empty());
    assert!(result.dynamic_usages.is_empty());
}
