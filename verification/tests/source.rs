use i18n_hunt::engine::source::{
    collect_file_usages, is_supported_source_file, line_of_offset, FunctionReturns, KeyExpr,
    SourceEvent, Usage, UsageKind,
};

fn lit(s: &str) -> KeyExpr {
    KeyExpr::Literal(s.to_string())
}

fn name(n: &str) -> KeyExpr {
    KeyExpr::Name(n.to_string())
}

fn call(callee: &str, offset: usize, args: Vec<KeyExpr>) -> SourceEvent {
    SourceEvent::Call { callee: callee.to_string(), offset, args }
}

fn konst(n: &str, init: KeyExpr) -> SourceEvent {
    SourceEvent::Const { name: n.to_string(), init }
}

fn obj(members: Vec<(&str, KeyExpr)>) -> KeyExpr {
    KeyExpr::Object(members.into_iter().map(|(k, v)| (k.to_string(), v)).collect())
}

fn describe(u: &Usage) -> (String, Vec<String>) {
    let kind = match &u.kind {
        UsageKind::Static(k) => format!("static:{k}"),
        UsageKind::Prefix(p) => format!("prefix:{p}"),
        UsageKind::Dynamic => "dynamic".to_string(),
    };
    (kind, u.namespaces.clone())
}

fn scan(events: Vec<SourceEvent>) -> Vec<(String, Vec<String>)> {
    scan_with(vec![], events)
}

fn scan_with(functions: Vec<FunctionReturns>, events: Vec<SourceEvent>) -> Vec<(String, Vec<String>)> {
    collect_file_usages(&"src/App.tsx".to_string(), "", &functions, &events).iter().map(describe).collect()
}

fn kinds(events: Vec<SourceEvent>) -> Vec<String> {
    scan(events).into_iter().map(|(k, _)| k).collect()
}

fn ns(v: &[&str]) -> Vec<String> {
    v.iter().map(|s| s.to_string()).collect()
}

const SOURCE: &str = "const { t } = useTranslation(\"Auth/Login\");\nt(\"title\");\nt(`form.${field}`);\nt(key);\n";

#[test]
fn use_translation_then_t_records_static_usage() {
    let events = vec![call("useTranslation", 14, vec![lit("Auth/Login")]), call("t", 44, vec![lit("title")])];
    let usages = collect_file_usages(&"src/Login.tsx".to_string(), SOURCE, &vec![], &events);
    assert_eq!(usages.len(), 1);
    assert_eq!(usages[0].path, "src/Login.tsx");
    assert_eq!(usages[0].line, 2);
    assert_eq!(describe(&usages[0]), ("static:title".to_string(), ns(&["Auth/Login"])));
}

#[test]
fn template_literals_classify_as_static_prefix_or_dynamic() {
    let events = vec![
        call("t", 0, vec![KeyExpr::Template { head: Some("form.".to_string()), has_expressions: true }]),
        call("t", 0, vec![KeyExpr::Template { head: Some("title".to_string()), has_expressions: false }]),
        call("t", 0, vec![KeyExpr::Template { head: Some(String::new()), has_expressions: true }]),
    ];
    assert_eq!(kinds(events), vec!["prefix:form.", "static:title", "dynamic"]);
}

#[test]
fn unresolved_argument_is_dynamic_and_missing_argument_records_nothing() {
    let events = vec![call("t", 0, vec![name("key")]), call("t", 0, vec![]), call("t", 0, vec![KeyExpr::Other])];
    assert_eq!(kinds(events), vec!["dynamic", "dynamic"]);
}

#[test]
fn namespace_arrays_add_their_string_literals() {
    let events = vec![
        call("useTranslation", 0, vec![KeyExpr::Array(vec![lit("Auth/Login"), name("x"), lit("Common")])]),
        call("t", 0, vec![lit("sharedFallback")]),
    ];
    assert_eq!(scan(events), vec![("static:sharedFallback".to_string(), ns(&["Auth/Login", "Common"]))]);
}

#[test]
fn dynamic_namespace_is_ignored_and_scope_accumulates() {
    let events = vec![
        call("t", 0, vec![lit("a")]),
        call("useTranslation", 0, vec![lit("One")]),
        call("useTranslation", 0, vec![name("dynamicNs")]),
        call("t", 0, vec![lit("b")]),
        call("getServerTranslate", 0, vec![lit("Two")]),
        call("t", 0, vec![lit("c")]),
    ];
    let scopes: Vec<Vec<String>> = scan(events).into_iter().map(|(_, n)| n).collect();
    assert_eq!(scopes, vec![ns(&[]), ns(&["One"]), ns(&["One", "Two"])]);
}

#[test]
fn other_callees_record_nothing() {
    let events = vec![call("translate", 0, vec![lit("a")]), call("T", 0, vec![lit("b")]), call("i18n.t", 0, vec![lit("c")])];
    assert!(scan(events).is_empty());
}

#[test]
fn i18next_t_with_namespace_in_key() {
    let events = vec![call("i18next.t", 0, vec![lit("Auth/Login:i18nextOnly")])];
    assert_eq!(scan(events), vec![("static:i18nextOnly".to_string(), ns(&["Auth/Login"]))]);
}

#[test]
fn namespace_embedded_in_key_overrides_scope() {
    let events = vec![call("useTranslation", 0, vec![lit("Common")]), call("t", 0, vec![lit("Auth/Login:colonUsed")])];
    assert_eq!(scan(events), vec![("static:colonUsed".to_string(), ns(&["Auth/Login"]))]);
}

#[test]
fn namespace_option_overrides_scope() {
    let events = vec![
        call("useTranslation", 0, vec![lit("Common")]),
        call("t", 0, vec![lit("optionNsOnly"), obj(vec![("ns", lit("Auth/Login"))])]),
        call("t", 0, vec![lit("other"), obj(vec![("count", lit("1"))])]),
    ];
    assert_eq!(
        scan(events),
        vec![
            ("static:optionNsOnly".to_string(), ns(&["Auth/Login"])),
            ("static:other".to_string(), ns(&["Common"])),
        ]
    );
}

#[test]
fn prefix_with_namespace_names_it() {
    let events = vec![
        call("t", 0, vec![KeyExpr::Template { head: Some("SAT:type.".to_string()), has_expressions: true }]),
        call("t", 0, vec![KeyExpr::Template { head: Some("SAT:".to_string()), has_expressions: true }]),
    ];
    assert_eq!(
        scan(events),
        vec![("prefix:type.".to_string(), ns(&["SAT"])), ("dynamic".to_string(), ns(&["SAT"]))]
    );
}

#[test]
fn trans_element_with_key_and_namespace() {
    let events = vec![
        call("useTranslation", 0, vec![lit("Wallet")]),
        SourceEvent::Element {
            name: "Trans".to_string(),
            offset: 0,
            attributes: vec![("i18nKey".to_string(), lit("transOnly")), ("ns".to_string(), lit("Common"))],
        },
        SourceEvent::Element {
            name: "Trans".to_string(),
            offset: 0,
            attributes: vec![("i18nKey".to_string(), name("key")), ("t".to_string(), name("t"))],
        },
        SourceEvent::Element { name: "div".to_string(), offset: 0, attributes: vec![("i18nKey".to_string(), lit("no"))] },
    ];
    assert_eq!(
        scan(events),
        vec![("static:transOnly".to_string(), ns(&["Common"])), ("dynamic".to_string(), ns(&["Wallet"]))]
    );
}

#[test]
fn const_values_propagate() {
    let events = vec![konst("key", lit("title")), call("t", 0, vec![name("key")])];
    assert_eq!(kinds(events), vec!["static:title"]);
}

#[test]
fn conditional_and_logical_fallbacks() {
    let cond = KeyExpr::Conditional(Box::new(lit("a")), Box::new(lit("b")));
    let or = KeyExpr::Or(Box::new(KeyExpr::CallOf("getMaybeKey".to_string())), Box::new(lit("title")));
    let and = KeyExpr::And(Box::new(name("flag")), Box::new(lit("title")));
    let events = vec![call("t", 0, vec![cond]), call("t", 0, vec![or]), call("t", 0, vec![and])];
    assert_eq!(kinds(events), vec!["static:a", "static:b", "static:title", "dynamic"]);
}

#[test]
fn array_arguments_are_analyzed_element_by_element() {
    let events = vec![call("t", 0, vec![KeyExpr::Array(vec![lit("title"), lit("description")])])];
    assert_eq!(kinds(events), vec!["static:title", "static:description"]);
}

#[test]
fn iterator_callbacks_bind_their_parameter_to_the_elements() {
    let events = vec![
        SourceEvent::CallbackStart {
            method: "map".to_string(),
            param: "k".to_string(),
            items: KeyExpr::Array(vec![lit("form.email"), lit("form.password")]),
        },
        call("t", 0, vec![name("k")]),
        SourceEvent::CallbackEnd,
        konst("OPTIONS", KeyExpr::Array(vec![lit("opt.a"), lit("opt.b")])),
        SourceEvent::CallbackStart { method: "forEach".to_string(), param: "k".to_string(), items: name("OPTIONS") },
        call("t", 0, vec![name("k")]),
        SourceEvent::CallbackEnd,
        SourceEvent::CallbackStart { method: "filter".to_string(), param: "k".to_string(), items: name("OPTIONS") },
        call("t", 0, vec![name("k")]),
        SourceEvent::CallbackEnd,
        call("t", 0, vec![name("k")]),
    ];
    assert_eq!(
        kinds(events),
        vec!["static:form.email", "static:form.password", "static:opt.a", "static:opt.b", "dynamic", "dynamic"]
    );
}

#[test]
fn object_maps_with_computed_and_static_access() {
    let map = obj(vec![("created", lit("mapCreated")), ("deleted", lit("mapDeleted"))]);
    let events = vec![
        konst("keyByState", map),
        call("t", 0, vec![KeyExpr::Member { object: "keyByState".to_string(), property: None }]),
        call("t", 0, vec![KeyExpr::Member { object: "keyByState".to_string(), property: Some("deleted".to_string()) }]),
        call("t", 0, vec![KeyExpr::Member { object: "keyByState".to_string(), property: Some("unknown".to_string()) }]),
        call("t", 0, vec![KeyExpr::Member { object: "other".to_string(), property: None }]),
    ];
    assert_eq!(
        kinds(events),
        vec!["static:mapCreated", "static:mapDeleted", "static:mapDeleted", "dynamic", "dynamic"]
    );
}

#[test]
fn function_return_inference() {
    let functions = vec![FunctionReturns {
        name: "getErrorKey".to_string(),
        returns: vec![KeyExpr::Conditional(Box::new(lit("errors.network")), Box::new(lit("errors.invalidCredentials")))],
    }];
    let events = vec![
        call("t", 0, vec![KeyExpr::CallOf("getErrorKey".to_string())]),
        call("t", 0, vec![KeyExpr::CallOf("unknownFn".to_string())]),
    ];
    let k: Vec<String> = scan_with(functions, events).into_iter().map(|(k, _)| k).collect();
    assert_eq!(k, vec!["static:errors.network", "static:errors.invalidCredentials", "dynamic"]);
}

#[test]
fn lines_are_one_based_and_count_newlines_before_offset() {
    assert_eq!(line_of_offset(SOURCE, 0), 1);
    assert_eq!(line_of_offset(SOURCE, 44), 2);
    assert_eq!(line_of_offset(SOURCE, 56), 3);
    assert_eq!(line_of_offset("a\nb\n", 1000), 3);
    assert_eq!(line_of_offset("", 5), 1);
}

#[test]
fn supported_source_extensions() {
    assert!(is_supported_source_file("src/App.tsx"));
    assert!(is_supported_source_file("src/app.ts"));
    assert!(is_supported_source_file("lib/index.js"));
    assert!(is_supported_source_file("lib/view.jsx"));
    assert!(is_supported_source_file("a.b/c.d.ts"));
    assert!(!is_supported_source_file("src/styles.css"));
    assert!(!is_supported_source_file("src/ts"));
    assert!(!is_supported_source_file("src/.ts"));
    assert!(!is_supported_source_file("src.ts/README"));
    assert!(!is_supported_source_file("src/App.TSX"));
    assert!(!is_supported_source_file("src/App.tsx.bak"));
    assert!(is_supported_source_file("x.ts/"));
    assert!(is_supported_source_file("src/App.tsx/./"));
    assert!(!is_supported_source_file("x.ts/.."));
    assert!(!is_supported_source_file("/"));
}
