use rimsort_core::json::Json;
use rimsort_core::rules::{ignore_doc_from, parse_replacements, user_rule_doc_from, write_ignore, write_user_rule, ExtRule, ExternalRules, Replacement};
use std::io::Write;

fn lookup<'a>(v: &'a [(String, Replacement)], k: &str) -> &'a Replacement {
    &v.iter().find(|(id, _)| id == k).unwrap().1
}

#[test]
fn user_rule_write_keeps_comments_and_removes_empty() {
    let base = r#"{"timestamp":1,"extra":true,"rules":{"a.b":{"loadAfter":{"x.y":{"name":"X","comment":"keep me"}},"loadTop":{"value":true,"comment":"c"}}}}"#;
    let rule = ExtRule {
        load_after: vec!["x.y".into(), "n.w".into()],
        load_before: vec![],
        load_top: true,
        load_bottom: false,
    };
    let names: Vec<String> = rule.load_after.iter().map(|id| format!("Name of {id}")).collect();
    let out = write_user_rule(Some(base), "a.b", &rule, &names, &vec![]).unwrap();
    let v: serde_json::Value = serde_json::from_str(&out).unwrap();
    assert_eq!(v["extra"], true);
    assert_eq!(v["rules"]["a.b"]["loadAfter"]["x.y"]["comment"], "keep me");
    assert_eq!(v["rules"]["a.b"]["loadAfter"]["n.w"]["name"], "Name of n.w");
    assert_eq!(v["rules"]["a.b"]["loadTop"]["comment"], "c");
    let parsed = ExternalRules::parse(&out).unwrap();
    let mut after = parsed.get("a.b").unwrap().load_after.clone();
    after.sort();
    assert_eq!(after, ["n.w", "x.y"]);
    let cleared = write_user_rule(Some(&out), "A.B", &ExtRule::empty(), &vec![], &vec![]).unwrap();
    assert!(ExternalRules::parse(&cleared).unwrap().get("a.b").is_none());
}

#[test]
fn ignore_write_add_remove() {
    let a = write_ignore(None, "P.Q", true).unwrap();
    assert!(a.contains("p.q"));
    let b = write_ignore(Some(&a), "p.q", false).unwrap();
    assert!(!b.contains("p.q") && b.contains("description"));
}

#[test]
fn parses_replacements_plain_and_gzip() {
    let json = r#"{"version":1,"rules":[{"oldWorkshopId":"111","newName":"New","newAuthor":"Me","newWorkshopId":"222","newPackageId":"a.b"},{"nope":1}]}"#;
    let plain = parse_replacements(json.as_bytes()).unwrap();
    assert_eq!(lookup(&plain, "111").new_workshop_id, "222");
    let mut gz = flate2::write::GzEncoder::new(Vec::new(), flate2::Compression::default());
    gz.write_all(json.as_bytes()).unwrap();
    let packed = gz.finish().unwrap();
    assert_eq!(lookup(&parse_replacements(&packed).unwrap(), "111").new_name, "New");
    assert!(parse_replacements(b"garbage").is_err());
}

#[test]
fn parses_community_shapes() {
    let r = ExternalRules::parse(
        r#"{"timestamp": 5, "rules": {
          "A.B": {"loadBefore": {"X.Y": {"name": ["a","b"]}}, "loadAfter": {"c.d": {"name": "C", "comment": "hi"}},
                  "loadBottom": {"value": true, "comment": "last"}},
          "e.f": {"loadTop": {"value": false}, "incompatibleWith": {"z": {}}, "weird": 3}
        }}"#,
    )
    .unwrap();
    assert_eq!(r.timestamp, 5);
    let a = r.get("a.b").unwrap();
    assert_eq!(
        (a.load_before.as_slice(), a.load_after.as_slice()),
        (&["x.y".to_string()][..], &["c.d".to_string()][..])
    );
    assert!(a.load_bottom && !a.load_top);
    assert!(!r.get("e.f").unwrap().load_top);
    assert!(ExternalRules::parse("not json").is_err());
}

#[test]
fn set_then_get_gives_the_rule_back() {
    let mut r = ExternalRules::new(0);
    let rule = ExtRule { load_after: vec!["x.y".into()], load_before: vec![], load_top: false, load_bottom: true };
    r.set("m.n", rule);
    let got = r.get("m.n").unwrap();
    assert_eq!(got.load_after, ["x.y"]);
    assert!(got.load_bottom);
    assert_eq!(r.len(), 1);
    r.set("m.n", ExtRule::empty());
    assert!(r.get("m.n").is_none());
    assert!(r.is_empty());
}

#[test]
fn replacements_text_that_is_not_json_is_an_error() {
    assert!(parse_replacements(b"{\"rules\": [").is_err());
    assert!(parse_replacements(b"{}").unwrap().is_empty());
}

#[test]
fn rule_count_follows_set() {
    let mut r = ExternalRules::new(0);
    let mut top = ExtRule::empty();
    top.load_top = true;
    r.set("a.a", top);
    assert_eq!(r.len(), 1);
    let mut again = ExtRule::empty();
    again.load_bottom = true;
    r.set("a.a", again);
    assert_eq!(r.len(), 1);
    r.set("b.b", ExtRule::empty());
    assert_eq!(r.len(), 1);
    r.set("a.a", ExtRule::empty());
    assert_eq!(r.len(), 0);
    assert!(r.is_empty());
}

#[test]
fn ignore_document_from_parsed_members() {
    let existing = vec![
        ("x".to_string(), Json::Number("1".into())),
        ("ignored_mods".to_string(), Json::Array(vec![Json::Str("B.b".into()), Json::Str("a.a".into())])),
    ];
    let Json::Object(m) = ignore_doc_from(Some(existing), "c.c", true) else { panic!() };
    let Some(Json::Array(ids)) = Json::get_member(&m, "ignored_mods") else { panic!() };
    let ids: Vec<String> = ids.iter().filter_map(|j| j.as_str().cloned()).collect();
    assert_eq!(ids, ["a.a", "b.b", "c.c"]);
    assert!(Json::get_member(&m, "x").is_some());
    let Json::Object(m) = ignore_doc_from(None, "a.a", false) else { panic!() };
    let Some(Json::Array(ids)) = Json::get_member(&m, "ignored_mods") else { panic!() };
    assert!(ids.is_empty());
    assert!(Json::get_member(&m, "description").is_some());
}

#[test]
fn user_rule_document_from_parsed_members() {
    let mut rule = ExtRule::empty();
    rule.load_top = true;
    let Json::Object(m) = user_rule_doc_from(vec![], "a.a", &rule, &vec![], &vec![], 5) else { panic!() };
    assert_eq!(Json::get_member(&m, "timestamp").and_then(|t| if let Json::Number(n) = t { Some(n.clone()) } else { None }), Some("5".to_string()));
    let Some(Json::Object(rules)) = Json::get_member(&m, "rules") else { panic!() };
    let Some(Json::Object(entry)) = Json::get_member(rules, "a.a") else { panic!() };
    assert!(Json::get_member(entry, "loadTop").is_some());
}
