use rimsort_core::meta::{load_text, meta_from_row, package_for_folder, safe, save_text, ModMeta};
use rimsort_core::mods::{Mod, ModIndex, ModType, Rules};
use rimsort_core::rules::ExtRule;
use rimsort_core::mod_id::ModId;
use rimsort_core::modlist_io::{parse_list, report_line_id, to_json};

#[test]
fn roundtrip_and_empty_entries_dropped() {
    let m = vec![
        (
            "a.b".to_string(),
            ModMeta { color: Some("#ff0000".into()), tags: vec!["qol".into()], note: "hi".into(), ignore: true },
        ),
        ("c.d".to_string(), ModMeta::empty()),
    ];
    let text = save_text(&m).unwrap();
    let back = load_text(&text);
    assert_eq!(back.len(), 1);
    assert_eq!(back[0].0, "a.b");
    assert_eq!(back[0].1.tags, ["qol"]);
    assert_eq!(back[0].1.color.as_deref(), Some("#ff0000"));
    assert!(back[0].1.ignore);
    assert!(load_text("").is_empty());
    assert_eq!(safe("My Inst/ance"), "My_Inst_ance");
}

#[test]
fn metadata_rows_key_by_folder_and_normalise_color() {
    let (folder, m) = meta_from_row("E:\\old\\workshop\\12345", Some("FF8800".into()), "my note".into(), false);
    assert_eq!(folder, "12345");
    assert_eq!(m.color.as_deref(), Some("#ff8800"));
    assert_eq!(m.note, "my note");
    let (_, n) = meta_from_row("E:/old/workshop/99999", Some(String::new()), String::new(), true);
    assert_eq!(n.color, None);
    assert!(n.ignore);
}

#[test]
fn stable_and_distinct() {
    let a = ModId::from_path("C:/mods/a");
    assert_eq!(a, ModId::from_path("C:/mods/a"));
    assert_ne!(a, ModId::from_path("C:/mods/b"));
}

#[test]
fn detects_every_format() {
    let json = parse_list(r#"{"version":"1.6.1","activeMods":["A.B","c.d"],"knownExpansions":["ludeon.rimworld.royalty"]}"#).unwrap();
    assert_eq!(json.package_ids, ["a.b", "c.d"]);
    assert_eq!(json.game_version.as_deref(), Some("1.6.1"));

    let cfg = parse_list("<?xml version=\"1.0\"?><ModsConfigData><version>1.6</version><activeMods><li>X.Y</li></activeMods></ModsConfigData>").unwrap();
    assert_eq!(cfg.package_ids, ["x.y"]);

    let rws = parse_list("<savegame><meta><gameVersion>1.5</gameVersion><modIds><li>p.q</li><li>r.s</li></modIds><modNames><li>P</li></modNames></meta></savegame>").unwrap();
    assert_eq!(rws.package_ids, ["p.q", "r.s"]);
    let rml = parse_list("<savedModList><meta><modIds><li>m.n</li></modIds></meta></savedModList>").unwrap();
    assert_eq!(rml.package_ids, ["m.n"]);

    let report = "Created with RimSort 1.0\nRimWorld game version this list was created for: 1.6\nTotal # of mods: 2\n\nHarmony [brrainz.harmony][https://x.y/z]\nMy Mod [Auth.Mod][No url specified]\n";
    assert_eq!(parse_list(report).unwrap().package_ids, ["brrainz.harmony", "auth.mod"]);
    assert_eq!(parse_list("a.b\n  c.d \n# comment\n").unwrap().package_ids, ["a.b", "c.d"]);
}

#[test]
fn rejects_garbage() {
    assert!(parse_list("hello world").is_err());
    assert!(parse_list("{\"nope\":1}").is_err());
    assert!(parse_list("<html/>").is_err());
}

#[test]
fn json_roundtrip() {
    let out = to_json("1.6", &vec!["a.b".into()], &vec![]);
    assert_eq!(parse_list(&out).unwrap().package_ids, ["a.b"]);
}

#[test]
fn report_lines_take_the_bracketed_id() {
    assert_eq!(report_line_id("Harmony [brrainz.harmony][https://x.y/z]"), Some("brrainz.harmony".to_string()));
    assert_eq!(report_line_id("no brackets"), None);
}

fn stub(pid: &str, folder: &str, valid: bool) -> Mod {
    Mod {
        id: ModId::from_path(folder),
        path: format!("/w/{folder}"),
        folder: folder.into(),
        mod_type: ModType::SteamWorkshop,
        valid,
        invalid_reason: None,
        package_id: pid.into(),
        name: pid.into(),
        authors: vec![],
        description: String::new(),
        url: String::new(),
        mod_version: String::new(),
        supported_versions: vec![],
        published_file_id: Some(folder.into()),
        steam_app_id: None,
        rules: Rules::empty(),
        community: ExtRule::empty(),
        user: ExtRule::empty(),
        mtime: 0,
    }
}

#[test]
fn imports_from_sqlite_by_folder_name() {
    let index = ModIndex::new(vec![stub("a.b", "12345", true), stub("c.d", "99999", true), stub("x.y", "555", false)], String::new(), 0);
    let (f, m) = meta_from_row("E:/old/workshop/12345", Some("FF8800".into()), "my note".into(), false);
    assert_eq!(package_for_folder(&index, &f).as_deref(), Some("a.b"));
    assert_eq!(m.color.as_deref(), Some("#ff8800"));
    assert_eq!(m.note, "my note");
    let (f2, m2) = meta_from_row("E:/old/workshop/99999", None, String::new(), true);
    assert_eq!(package_for_folder(&index, &f2).as_deref(), Some("c.d"));
    assert!(m2.ignore);
    let (f3, _) = meta_from_row("E:/old/workshop/555", None, String::new(), false);
    assert_eq!(package_for_folder(&index, &f3), None);
}
