use rimsort_core::detect::{detect_from, GameProbe, LibraryProbe, RootProbe};

fn game(path: &str, is_dir: bool, has_data: bool, mac: bool) -> GameProbe {
    GameProbe {
        path: path.to_string(),
        is_dir,
        has_data,
        mac_mods: format!("{path}/RimWorldMac.app/Mods"),
        mac_mods_is_dir: mac,
        mods: format!("{path}/Mods"),
    }
}

fn lib(path: &str, manifest: Option<&str>, game_dir: Option<(&str, bool)>, workshop: bool) -> LibraryProbe {
    LibraryProbe {
        path: path.to_string(),
        is_dir: true,
        manifest: manifest.map(|m| m.to_string()),
        game: game_dir.map(|(d, is_dir)| (d.to_string(), game(&format!("{path}/steamapps/common/{d}"), is_dir, true, false))),
        workshop: format!("{path}/steamapps/workshop/content/294100"),
        workshop_is_dir: workshop,
    }
}

const VDF: &str = "\"libraryfolders\" { \"0\" { \"path\" \"/t/Steam\" } \"1\" { \"path\" \"/t/Lib2\" } }";
const ACF: &str = "\"AppState\" { \"appid\" \"294100\" \"installdir\" \"RimWorld\" }";

#[test]
fn detects_rimworld_in_second_library() {
    let roots = vec![RootProbe { path: "/t/Steam".into(), is_dir: true, library_folders: Some(VDF.into()) }];
    let libs = vec![lib("/t/Steam", None, None, false), lib("/t/Lib2", Some(ACF), Some(("RimWorld", true)), true)];
    let cfgs = vec![("/t/Config".to_string(), true)];
    let d = detect_from(&roots, &libs, &vec![], &cfgs);
    assert!(d.game_folder.clone().unwrap().ends_with("RimWorld"));
    assert!(d.workshop_folder.clone().unwrap().ends_with("294100"));
    assert!(d.local_folder.clone().unwrap().ends_with("Mods"));
    assert_eq!(d.config_folder.clone().unwrap(), "/t/Config");
    assert_eq!(
        d.notes,
        vec!["Steam libraries checked: 2".to_string(), "RimWorld found via Steam library /t/Lib2".to_string()]
    );
}

#[test]
fn nothing_found_explains_why() {
    let d = detect_from(&vec![], &vec![], &vec![], &vec![]);
    assert!(d.game_folder.is_none() && d.notes.iter().any(|n| n.contains("not found")));
    assert_eq!(d.notes.len(), 3);
    assert_eq!(d.notes[0], "Steam libraries checked: 0");
}

#[test]
fn missing_install_dir_skips_the_library() {
    let roots = vec![RootProbe { path: "/s".into(), is_dir: true, library_folders: None }];
    let libs = vec![lib("/s", Some("\"AppState\" { }"), None, true)];
    let d = detect_from(&roots, &libs, &vec![], &vec![]);
    assert_eq!(d.game_folder, None);
    assert_eq!(d.workshop_folder.as_deref(), Some("/s/steamapps/workshop/content/294100"));
    assert_eq!(d.notes[1], "RimWorld not found in any Steam library; pick the game folder manually");
    assert_eq!(d.notes[2], "RimWorld config folder not found (run the game once, or pick it manually)");
}

#[test]
fn non_steam_location_and_mac_mods() {
    let extra = vec![game("/g1", true, false, false), game("/g2", true, true, true)];
    let d = detect_from(&vec![], &vec![], &extra, &vec![("/c1".to_string(), false), ("/c2".to_string(), true)]);
    assert_eq!(d.game_folder.as_deref(), Some("/g2"));
    assert_eq!(d.local_folder.as_deref(), Some("/g2/RimWorldMac.app/Mods"));
    assert_eq!(d.config_folder.as_deref(), Some("/c2"));
    assert_eq!(d.notes, vec!["Steam libraries checked: 0".to_string(), "RimWorld found in a non-Steam location".to_string()]);
}

#[test]
fn missing_roots_and_duplicate_libraries_are_not_counted() {
    let roots = vec![
        RootProbe { path: "/gone".into(), is_dir: false, library_folders: Some(VDF.into()) },
        RootProbe { path: "/t/Steam".into(), is_dir: true, library_folders: Some(VDF.into()) },
        RootProbe { path: "/t/Lib2".into(), is_dir: true, library_folders: None },
    ];
    let mut second = lib("/t/Lib2", Some(ACF), Some(("RimWorld", false)), false);
    second.is_dir = false;
    let libs = vec![lib("/t/Steam", None, None, false), second];
    let d = detect_from(&roots, &libs, &vec![], &vec![]);
    assert_eq!(d.notes[0], "Steam libraries checked: 2");
    assert_eq!(d.game_folder, None);
}
