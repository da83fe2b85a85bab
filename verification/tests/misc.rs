use rimsort_core::dbupdate::{etag_for, sources};
use rimsort_core::error::{decimal_u64, Error, ErrorDto};
use rimsort_core::logs::{chunk_range, trim_partial_line};
use rimsort_core::saves::package_ids;
use rimsort_core::snapshots::{delete, get, info, save, Snapshot};
use rimsort_core::startup_impact::{normalize, Report};
use rimsort_core::steamdb::{SteamDb, SteamDbEntry};
use rimsort_core::troubleshoot::{config_dir, takes, Fix};

#[test]
fn snapshot_save_get_replace_delete() {
    let mut list: Vec<Snapshot> = vec![];
    save(&mut list, "  Before update ", vec!["a.b".into()], 10).unwrap();
    assert_eq!(get(&list, "Before update").unwrap().package_ids, ["a.b"]);
    save(&mut list, "Before update", vec!["c.d".into()], 20).unwrap();
    assert_eq!(list.len(), 1);
    assert_eq!(get(&list, "Before update").unwrap().created, 20);
    save(&mut list, "other", vec![], 30).unwrap();
    let i = info(&list);
    assert_eq!(i[0].name, "other");
    assert_eq!(i[1].count, 1);
    assert!(save(&mut list, "   ", vec![], 40).is_err());
    delete(&mut list, "other");
    assert!(get(&list, "other").is_none());
    assert_eq!(list.len(), 1);
}

#[test]
fn log_chunks_start_at_the_tail_and_follow() {
    assert_eq!(chunk_range(None, 100), (0, 100, true));
    assert_eq!(chunk_range(None, 500_000), (500_000 - 409_600, 500_000, true));
    assert_eq!(chunk_range(Some(50), 100), (50, 100, false));
    assert_eq!(chunk_range(Some(200), 100), (0, 100, true));
    assert_eq!(trim_partial_line("art\nnext\n".into(), 10, true), "next\n");
    assert_eq!(trim_partial_line("whole\n".into(), 0, true), "whole\n");
}

#[test]
fn save_header_lists_mod_ids() {
    let head = "<savegame><meta><gameVersion>1.6</gameVersion><modIds><li>Brrainz.Harmony</li><li>ludeon.rimworld_steam</li></modIds></meta><game><modIds><li>later.ignored</li></modIds></game></savegame>";
    assert_eq!(package_ids(head).unwrap(), ["brrainz.harmony", "ludeon.rimworld"]);
    assert_eq!(package_ids("<savegame><meta></meta>"), None);
}

#[test]
fn steam_suffix_and_case_are_dropped() {
    assert_eq!(normalize("Author.SomeMod_steam"), "author.somemod");
    assert_eq!(normalize("x.y"), "x.y");
}

#[test]
fn unique_database_lookups() {
    let e = |id: &str, pid: &str, name: &str| SteamDbEntry {
        id: id.into(),
        package_id: pid.into(),
        name: name.into(),
        steam_name: String::new(),
        unpublished: false,
    };
    let db = SteamDb::from_entries(&vec![e("1", "a.b", "A"), e("2", "dup.x", "First"), e("3", "dup.x", "Second")]);
    assert_eq!(db.lookup("a.b", ""), Some(("1", "A")));
    assert_eq!(db.lookup("dup.x", ""), None);
    assert_eq!(db.lookup("dup.x", "Second"), Some(("3", "Second")));
    assert_eq!(db.lookup("none", ""), None);
}

#[test]
fn resets_take_their_files() {
    assert!(takes(Fix::ModSettings, "Mod_abc_Thing.xml"));
    assert!(!takes(Fix::ModSettings, "Prefs.xml"));
    assert!(takes(Fix::GameSettings, "KeyPrefs.xml"));
    assert!(takes(Fix::SteamDownloadCache, "anything"));
    assert!(config_dir("").is_err());
    assert_eq!(config_dir("/cfg").unwrap(), "/cfg");
}

#[test]
fn database_sources_and_etags() {
    let s = sources("1.6.4871 rev590");
    assert!(s.iter().any(|x| x.name == "Community rules"));
    let tags = vec![("u1".to_string(), "\"abc\"".to_string())];
    assert_eq!(etag_for(&tags, "u1", true).as_deref(), Some("\"abc\""));
    assert_eq!(etag_for(&tags, "u1", false), None);
    assert_eq!(etag_for(&tags, "u2", true), None);
}

#[test]
fn errors_have_kinds_and_messages() {
    let e = Error::Other("x".into());
    let d = ErrorDto::from_error(&e);
    assert_eq!(d.kind, e.kind());
    assert_eq!(d.message, e.message());
    assert_eq!(decimal_u64(0), "0");
    assert_eq!(decimal_u64(18446744073709551615), "18446744073709551615");
}

const SAMPLE: &str = r#"<StartupImpactSession><sessionData><loadingTime>42500.5</loadingTime><mods>
  <li><modName>Some Mod</modName><modPackageId>Author.SomeMod_steam</modPackageId>
      <totalImpact>1230.5</totalImpact><offThreadTotalImpact>500</offThreadTotalImpact></li>
  <li><modName>Old Report Mod</modName><totalImpact>80</totalImpact></li>
  <li><modName></modName><totalImpact>9</totalImpact></li>
</mods></sessionData></StartupImpactSession>"#;

fn ms(t: &Option<String>) -> f32 {
    t.as_deref().and_then(|x| x.parse().ok()).unwrap_or(0.0)
}

#[test]
fn matches_by_package_id_then_name() {
    let r = Report::parse(SAMPLE).unwrap();
    let a = r.find("author.somemod", "whatever").unwrap();
    assert_eq!((ms(&a.total_ms), ms(&a.off_thread_ms)), (1230.5, 500.0));
    assert_eq!(ms(&r.find("x.y", "OLD report MOD").unwrap().total_ms), 80.0);
    assert!(r.find("x.y", "Nope").is_none());
    assert!(Report::parse("<other/>").is_none());
}

#[test]
fn nameless_entries_are_skipped_and_missing_times_are_absent() {
    let r = Report::parse(SAMPLE).unwrap();
    assert_eq!(r.by_package.len() + r.by_name.len(), 2);
    assert_eq!(r.find("x.y", "Old Report Mod").unwrap().off_thread_ms, None);
}

#[test]
fn deleted_snapshot_is_gone_and_equal_times_keep_order() {
    let mut list: Vec<Snapshot> = vec![];
    save(&mut list, "A", vec![], 5).unwrap();
    save(&mut list, "B", vec!["x.y".into()], 5).unwrap();
    save(&mut list, "C", vec![], 7).unwrap();
    let i = info(&list);
    let names: Vec<&str> = i.iter().map(|x| x.name.as_str()).collect();
    assert_eq!(names, ["C", "A", "B"]);
    delete(&mut list, "B");
    assert!(get(&list, "B").is_none());
    assert_eq!(list.len(), 2);
}
