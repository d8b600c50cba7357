use guac::kg::{
    describe_rendered, describe_value, fact_line_text, yaml_text, KgError, KnowledgeGraph, YamlValue,
};

fn yaml(v: &serde_yaml::Value) -> YamlValue {
    match v {
        serde_yaml::Value::Null => YamlValue::Null,
        serde_yaml::Value::Bool(b) => YamlValue::Bool(*b),
        serde_yaml::Value::Number(n) => YamlValue::Number(n.to_string()),
        serde_yaml::Value::String(s) => YamlValue::String(s.clone()),
        serde_yaml::Value::Sequence(s) => YamlValue::Sequence(s.iter().map(yaml).collect()),
        serde_yaml::Value::Mapping(m) => {
            YamlValue::Mapping(m.iter().map(|(k, v)| (yaml(k), yaml(v))).collect())
        }
        serde_yaml::Value::Tagged(t) => {
            YamlValue::Tagged(t.tag.to_string(), Box::new(yaml(&t.value)))
        }
    }
}

fn parse(text: &str) -> Option<YamlValue> {
    serde_yaml::from_str::<serde_yaml::Value>(text).ok().map(|v| yaml(&v))
}

fn empty_kg() -> KnowledgeGraph {
    KnowledgeGraph::new("/tmp/kg", YamlValue::Mapping(Vec::new()))
}

fn string(s: &str) -> YamlValue {
    YamlValue::String(s.to_string())
}

fn is_string(v: Option<&YamlValue>, s: &str) -> bool {
    matches!(v, Some(YamlValue::String(x)) if x == s)
}

#[test]
fn kg_test_kg_set_and_get() {
    let mut kg = empty_kg();
    kg.set("user.name", string("Rory")).unwrap();
    kg.set("user.age", YamlValue::Number("42".to_string())).unwrap();
    assert!(is_string(kg.get("user.name"), "Rory"));
    assert!(matches!(kg.get("user.age"), Some(YamlValue::Number(n)) if n == "42"));
}

#[test]
fn test_kg_set_str_parses_yaml() {
    let mut kg = empty_kg();
    kg.set_str("projects", "[Marina, FireBAC]").unwrap();
    let projects = kg.get("projects").unwrap();
    assert!(matches!(projects, YamlValue::Sequence(s) if s.len() == 2));
    kg.set_str("user.active", "true").unwrap();
    assert!(matches!(kg.get("user.active"), Some(YamlValue::Bool(true))));
}

#[test]
fn test_kg_merge() {
    let mut kg = empty_kg();
    let updates = vec![
        ("user.name".to_string(), string("Rory")),
        ("user.timezone".to_string(), string("Europe/London")),
    ];
    kg.merge(updates).unwrap();
    assert!(is_string(kg.get("user.name"), "Rory"));
    assert!(is_string(kg.get("user.timezone"), "Europe/London"));
}

#[test]
fn test_kg_paths() {
    let mut kg = empty_kg();
    kg.set_str("projects", "[Marina, FireBAC]").unwrap();
    kg.set("user.name", string("Rory")).unwrap();
    let paths = kg.paths();
    assert!(paths.contains(&"user.name".into()));
    assert!(paths.contains(&"projects.0".into()));
    assert!(paths.contains(&"projects.1".into()));
    assert_eq!(paths, vec!["projects.0", "projects.1", "user.name"]);
}

#[test]
fn test_describe_value() {
    assert_eq!(describe_value(&string("hello")), "hello");
    assert!(describe_value(&YamlValue::Number("42".to_string())).contains("42"));
    assert_eq!(describe_value(&YamlValue::Number("42".to_string())), "42");
    assert_eq!(describe_rendered(&string("hello"), "'hello'\n"), "hello");
    assert_eq!(describe_rendered(&YamlValue::Number("7".into()), " 7\n"), "7");
}

#[test]
fn read_after_write_returns_the_value() {
    let mut kg = KnowledgeGraph::new("/tmp/kg", parse("a: {b: 1}\nc: [x, y]").unwrap());
    kg.set("a.d.e", string("deep")).unwrap();
    assert!(is_string(kg.get("a.d.e"), "deep"));
    assert!(matches!(kg.get("a.b"), Some(YamlValue::Number(n)) if n == "1"));
    assert!(is_string(kg.get("c.1"), "y"));
    assert!(kg.get("c.2").is_none());
    assert!(kg.get("c.x").is_none());
    kg.set("a.b", string("replaced")).unwrap();
    assert!(is_string(kg.get("a.b"), "replaced"));
}

#[test]
fn writing_through_a_non_mapping_fails_and_changes_nothing() {
    let mut kg = KnowledgeGraph::new("/tmp/kg", parse("a: 5\nl: [1]").unwrap());
    let before = kg.paths();
    match kg.set("a.b", string("x")) {
        Err(KgError::NotAMapping(p)) => assert_eq!(p, "a.b"),
        Ok(()) => panic!("expected an error"),
    }
    assert!(kg.set("l.0", string("x")).is_err());
    assert_eq!(kg.paths(), before);
    let mut scalar = KnowledgeGraph::new("/tmp/kg", string("top"));
    assert!(scalar.set("x", string("y")).is_err());
}

#[test]
fn merge_stops_at_the_first_failure() {
    let mut kg = KnowledgeGraph::new("/tmp/kg", parse("a: 5").unwrap());
    let r = kg.merge(vec![
        ("x".to_string(), string("1")),
        ("a.b".to_string(), string("2")),
        ("y".to_string(), string("3")),
    ]);
    assert!(r.is_err());
    assert!(is_string(kg.get("x"), "1"));
    assert!(kg.get("y").is_none());
}

#[test]
fn set_str_keeps_unparsable_text() {
    let mut kg = empty_kg();
    kg.set_str("note", "a: b: c").unwrap();
    assert!(is_string(kg.get("note"), "a: b: c"));
}

#[test]
fn tagged_values_are_leaves_and_not_entered() {
    let kg = KnowledgeGraph::new("/tmp/kg", parse("t: !custom {x: 1}\nu: 2").unwrap());
    assert_eq!(kg.paths(), vec!["u"]);
}

#[test]
fn setting_below_a_scalar_is_refused_with_its_path() {
    let mut kg = empty_kg();
    kg.set("user", string("Rory")).unwrap();
    let err = kg.set("user.name", string("x")).unwrap_err();
    assert_eq!(err.message(), "cannot set path user.name: not a mapping");
    assert!(is_string(kg.get("user"), "Rory"));
}

#[test]
fn fact_lines_show_path_and_value() {
    assert_eq!(fact_line_text("user.name", &string("Rory")), "user.name: Rory");
    assert_eq!(
        fact_line_text("user.age", &YamlValue::Number("42".into())),
        "user.age: 42"
    );
}

#[test]
fn a_document_that_does_not_parse_gives_an_empty_graph() {
    let kg = KnowledgeGraph::from_document("/tmp/kg", Some("a: b: c"));
    assert!(kg.paths().is_empty());
    let kg = KnowledgeGraph::from_document("/tmp/kg", None);
    assert!(matches!(kg.data(), YamlValue::Mapping(m) if m.is_empty()));
    let kg = KnowledgeGraph::from_document("/tmp/kg", Some("user:\n  name: Rory\n"));
    assert!(is_string(kg.get("user.name"), "Rory"));
    assert_eq!(kg.root(), "/tmp/kg");
}

#[test]
fn store_text_keeps_the_text_when_nothing_parsed() {
    let mut kg = empty_kg();
    kg.store_text("note", "a: b: c", None).unwrap();
    assert!(is_string(kg.get("note"), "a: b: c"));
    kg.store_text("n", "12", parse("12")).unwrap();
    assert!(matches!(kg.get("n"), Some(YamlValue::Number(x)) if x == "12"));
}

#[test]
fn test_kg_save_and_load() {
    let text = {
        let mut kg = KnowledgeGraph::from_document("/tmp/kg", None);
        kg.set("user.name", string("Rory")).unwrap();
        kg.document_text().unwrap()
    };
    let kg2 = KnowledgeGraph::from_document("/tmp/kg", Some(&text));
    assert!(is_string(kg2.get("user.name"), "Rory"));
}

#[test]
fn every_listed_path_reads_back() {
    let kg = KnowledgeGraph::from_document(
        "/tmp/kg",
        Some("user:\n  name: Rory\n  tags: [a, b]\nprojects:\n  - {name: x}\n  - y\n"),
    );
    let paths = kg.paths();
    assert_eq!(paths, vec!["user.name", "user.tags.0", "user.tags.1", "projects.0.name", "projects.1"]);
    for p in &paths {
        assert!(kg.get(p).is_some(), "{}", p);
    }
}

#[test]
fn yaml_text_writes_values_and_documents() {
    assert_eq!(yaml_text(&string("true")).unwrap(), "'true'\n");
    let seq = YamlValue::Sequence(vec![YamlValue::Number("1".into()), YamlValue::Bool(false)]);
    assert_eq!(describe_value(&seq), "- 1\n- false");
    let tagged = YamlValue::Tagged("!custom".into(), Box::new(string("x")));
    assert!(tagged.tags_named());
    assert_eq!(yaml_text(&tagged).unwrap(), "!custom x\n");
    assert!(!YamlValue::Tagged(String::new(), Box::new(YamlValue::Null)).tags_named());
    let mut kg = empty_kg();
    kg.set("user.name", string("Rory")).unwrap();
    let text = kg.document_text().unwrap();
    assert_eq!(text, "user:\n  name: Rory\n");
    let again = KnowledgeGraph::from_document("/tmp/kg", Some(&text));
    assert!(is_string(again.get("user.name"), "Rory"));
}

#[test]
fn writes_leave_diverging_paths_alone() {
    let mut kg = KnowledgeGraph::from_document("/tmp/kg", Some("a:\n  b:\n    c: 1\n    d: 2\n  x: 3\n"));
    kg.set("a.b.c", string("new")).unwrap();
    assert!(is_string(kg.get("a.b.c"), "new"));
    assert!(matches!(kg.get("a.b.d"), Some(YamlValue::Number(n)) if n == "2"));
    assert!(matches!(kg.get("a.x"), Some(YamlValue::Number(n)) if n == "3"));
    let mut one = empty_kg();
    one.set("p.q", string("1")).unwrap();
    one.set("p.r", string("2")).unwrap();
    let mut two = empty_kg();
    two.set("p.r", string("2")).unwrap();
    two.set("p.q", string("1")).unwrap();
    for path in ["p.q", "p.r"] {
        assert!(matches!((one.get(path), two.get(path)), (Some(YamlValue::String(x)), Some(YamlValue::String(y))) if x == y));
    }
}

#[test]
fn get_string_reads_values_as_text() {
    let kg = KnowledgeGraph::from_document("/tmp/kg", Some("user:\n  name: Rory\n  age: 42\n  tags: [a, b]\n"));
    assert_eq!(kg.get_string("user.name"), Some("Rory".to_string()));
    assert_eq!(kg.get_string("user.age"), Some("42".to_string()));
    assert_eq!(kg.get_string("user.tags"), Some("- a\n- b".to_string()));
    assert_eq!(kg.get_string("user.missing"), None);
}

#[test]
fn merged_updates_read_back() {
    let mut kg = empty_kg();
    kg.merge(vec![
        ("user.name".to_string(), string("Rory")),
        ("user.timezone".to_string(), string("Europe/London")),
        ("projects.main".to_string(), string("FireBAC")),
    ])
    .unwrap();
    assert!(is_string(kg.get("user.name"), "Rory"));
    assert!(is_string(kg.get("user.timezone"), "Europe/London"));
    assert!(is_string(kg.get("projects.main"), "FireBAC"));
}
