use rimsort_core::json::Json;
use rimsort_core::watch::{classify, Change};
use rimsort_core::workshop::{needs_fetch, parse_response, WorkshopMeta};

fn meta(id: &str, fetched: u32) -> WorkshopMeta {
    WorkshopMeta {
        id: id.into(),
        title: String::new(),
        description: String::new(),
        subscriptions: 0,
        favorited: 0,
        tags: vec![],
        time_created: 0,
        time_updated: 0,
        file_size: 0,
        removed: false,
        banned: false,
        fetched,
    }
}

#[test]
fn classifies_paths() {
    let mods = vec!["/m".to_string()];
    let cfg = Some("/c".to_string());
    assert_eq!(classify("/m/x/About/About.xml", &mods, &cfg), Some(Change::Mods));
    assert_eq!(classify("/c/ModsConfig.xml", &mods, &cfg), Some(Change::Config));
    assert_eq!(classify("/c/Other.xml", &mods, &cfg), None);
    assert_eq!(classify("/m/x/.git/index", &mods, &cfg), None);
}

#[test]
fn paths_outside_every_folder_are_ignored() {
    let mods = vec!["/m".to_string()];
    assert_eq!(classify("/elsewhere/file", &mods, &None), None);
}

#[test]
fn parses_ok_removed_and_string_numbers() {
    let body = Json::parse(
        r#"{"response": {"publishedfiledetails": [
        {"publishedfileid": "1", "result": 1, "title": "Harmony", "description": "  desc  ",
         "lifetime_subscriptions": "1500", "subscriptions": 10, "visibility": 0, "banned": 0,
         "time_updated": 1756914561, "file_size": "5729526", "tags": [{"tag": "Mod"}, {"tag": "1.6"}]},
        {"publishedfileid": "2", "result": 9},
        {"publishedfileid": "3", "result": 1, "visibility": 2}
    ]}}"#,
    )
    .unwrap();
    let m = parse_response(&body, 100);
    assert_eq!(m.len(), 3);
    assert_eq!((m[0].subscriptions, m[0].time_updated, m[0].file_size), (1500, 1756914561, 5729526));
    assert_eq!(m[0].description, "desc");
    assert_eq!(m[0].tags, ["Mod", "1.6"]);
    assert!(!m[0].removed);
    assert!(m[1].removed, "result 9 = not found");
    assert!(m[2].removed, "non-public items count as removed");
    assert!(parse_response(&Json::parse("{}").unwrap(), 1).is_empty());
}

#[test]
fn only_missing_or_stale_ids_are_fetched() {
    let cache = vec![("a".to_string(), meta("a", 1_000_000)), ("b".to_string(), meta("b", 1))];
    let ids: Vec<String> = ["a", "b", "c"].map(String::from).into();
    assert_eq!(needs_fetch(&cache, &ids, 1_000_100), ["b", "c"]);
}

#[test]
fn json_parse_skips_a_byte_order_mark_and_refuses_garbage() {
    assert!(Json::parse("\u{feff}{\"a\": 1}").is_ok());
    assert!(Json::parse("{").is_err());
}
