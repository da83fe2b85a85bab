use rimsort_core::error::Error;
use rimsort_core::dto::{InstanceDto, MetaDto};
use rimsort_core::json::Json;
use rimsort_core::meta::meta_from_dto;
use rimsort_core::paths::DetectedPaths;
use rimsort_core::settings::Settings;
use rimsort_core::steamcmd::{check_ids, download_args};
use rimsort_core::task::{TaskEvent, TaskManager};

#[test]
fn partial_json_gets_defaults_and_keeps_unknown_keys() {
    let s = Settings::from_rimsort_json(
        r#"{"current_instance":"X","instances":{"X":{"game_folder":"G:/rw","weird":1}},"theme_name":"dark","github_token":"secret"}"#,
    )
    .unwrap();
    assert_eq!(s.current().unwrap().game_folder, "G:/rw");
    assert_eq!(s.current().unwrap().name, "X");
    assert_eq!(s.sorting_algorithm, "Topological");
    assert!(s.extra.iter().any(|(k, _)| k == "theme_name") && !s.extra.iter().any(|(k, _)| k == "github_token"));
    let out = s.to_text().unwrap();
    let v: serde_json::Value = serde_json::from_str(&out).unwrap();
    assert_eq!(v["instances"]["X"]["weird"], 1);
    assert!(out.contains("theme_name"));
}

#[test]
fn atomic_save_roundtrip() {
    let mut s = Settings::defaults();
    s.normalize();
    let text = s.to_text().unwrap();
    let back = Settings::from_rimsort_json(&text).unwrap();
    assert!(back.current().is_some());
    assert_eq!(back.current_instance, s.current_instance);
    assert_eq!(back.to_text().unwrap(), text);
}

#[test]
fn garbage_settings_are_an_error() {
    assert!(Settings::from_rimsort_json("{ not json").is_err());
}

#[test]
fn finishes_and_cancels() {
    let mut tm = TaskManager::new();
    let a = tm.start();
    let p = a.progress(1, 1, "x".into());
    assert!(matches!(p, TaskEvent::Progress { id, .. } if id == a.id));
    let done = tm.finish(a.id, Ok(()));
    assert!(matches!(done, TaskEvent::Finished { id } if id == a.id));

    let b = tm.start();
    assert!(b.check(&tm).is_ok());
    tm.cancel(b.id).unwrap();
    assert!(b.is_cancelled(&tm));
    let stop = b.check(&tm);
    assert!(matches!(stop, Err(Error::Cancelled)));
    let ev = tm.finish(b.id, stop);
    assert!(matches!(ev, TaskEvent::Cancelled { id } if id == b.id));
    assert!(tm.cancel(b.id).is_err());
}

#[test]
fn a_failed_task_reports_its_error() {
    let mut tm = TaskManager::new();
    let t = tm.start();
    let ev = tm.finish(t.id, Err(Error::Other("boom".into())));
    assert!(matches!(ev, TaskEvent::Failed { id, .. } if id == t.id));
    assert!(!tm.is_cancelled(t.id));
}

#[test]
fn rejects_non_numeric_ids_before_running_anything() {
    assert!(check_ids(&vec!["12; rm -rf".into()]).is_err());
    assert!(check_ids(&vec!["".into()]).is_err());
    assert!(check_ids(&vec!["123".into(), "456".into()]).is_ok());
}

#[test]
fn download_args_log_in_and_fetch_each_item() {
    let a = download_args("/srv/steamcmd", &vec!["1".into(), "2".into()]);
    assert!(a.iter().any(|x| x == "+login"));
    assert!(a.iter().any(|x| x == "1") && a.iter().any(|x| x == "2"));
    assert_eq!(a.last().map(String::as_str), Some("+quit"));
}

#[test]
fn normalized_settings_have_a_current_instance() {
    let mut s = Settings::from_rimsort_json(r#"{"current_instance":"Gone","instances":{"B":{},"A":{}}}"#).unwrap();
    s.normalize();
    assert_eq!(s.current_instance, "A");
    assert_eq!(s.current().unwrap().name, "A");
    let before = s.to_text().unwrap();
    s.normalize();
    assert_eq!(s.to_text().unwrap(), before);
    let mut empty = Settings::from_rimsort_json("{}").unwrap();
    empty.normalize();
    assert_eq!(empty.current().unwrap().name, "Default");
}

fn names(s: &Settings) -> Vec<String> {
    s.instances.iter().map(|(k, _)| k.clone()).collect()
}

#[test]
fn instances_are_created_switched_saved_and_deleted() {
    let mut s = Settings::defaults();
    s.normalize();
    assert_eq!(names(&s), ["Default"]);
    assert!(matches!(s.delete_instance("Default"), Err(Error::Other(m)) if m == "Cannot delete the last instance"));
    let d = DetectedPaths { game_folder: Some("/g".into()), config_folder: None, local_folder: Some("/g/Mods".into()), workshop_folder: None, notes: vec![] };
    s.create_instance("  Alpha ", &d).unwrap();
    s.create_instance("Zed", &d).unwrap();
    assert_eq!(names(&s), ["Alpha", "Default", "Zed"]);
    assert_eq!(s.instances[0].1.game_folder, "/g");
    assert_eq!(s.instances[0].1.config_folder, "");
    assert!(matches!(s.create_instance("Zed", &d), Err(Error::Other(m)) if m == "Instance name 'Zed' is empty or already exists"));
    assert!(matches!(s.create_instance("  ", &d), Err(Error::Other(m)) if m == "Instance name '' is empty or already exists"));
    assert!(matches!(s.switch_instance("Nope"), Err(Error::Other(m)) if m == "No such instance: Nope"));
    s.switch_instance("Zed").unwrap();
    assert_eq!(s.current_instance, "Zed");
    let dto = InstanceDto {
        name: "Zed".into(),
        game_folder: "/z".into(),
        config_folder: "/c".into(),
        local_folder: String::new(),
        workshop_folder: String::new(),
        run_args: "-popupwindow".into(),
        launch_via_steam: true,
    };
    s.save_instance(&dto).unwrap();
    assert_eq!(s.instances[2].1.game_folder, "/z");
    assert!(matches!(Json::get_member(&s.instances[2].1.extra, "launch_via_steam_protocol"), Some(Json::Bool(true))));
    let mut blank = dto.clone();
    blank.name = " ".into();
    assert!(matches!(s.save_instance(&blank), Err(Error::Other(m)) if m == "Instance name cannot be empty"));
    assert_eq!(s.delete_instance("Zed").unwrap(), true);
    assert_eq!(names(&s), ["Alpha", "Default"]);
    assert_eq!(s.delete_instance("Alpha").unwrap(), false);
}

#[test]
fn mod_meta_edits_are_cleaned() {
    let dto = MetaDto { color: Some(" #AABBCC ".into()), tags: vec![" Fav".into(), "fav".into(), "".into(), "QoL ".into()], note: "  hi  ".into() };
    let m = meta_from_dto(&dto, true);
    assert_eq!(m.color.as_deref(), Some("#aabbcc"));
    assert_eq!(m.tags, ["Fav", "QoL"]);
    assert_eq!(m.note, "hi");
    assert!(m.ignore);
    let bad = MetaDto { color: Some("#12345".into()), tags: vec![], note: String::new() };
    assert_eq!(meta_from_dto(&bad, false).color, None);
}
