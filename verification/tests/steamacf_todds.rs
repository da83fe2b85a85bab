use rimsort_core::steamacf::{parse, WorkshopTimes};
use rimsort_core::error::Error;
use rimsort_core::todds::{archive_url, build_args, check_targets, on_output, parse_progress, run_outcome, Platform, Preset, ToddsOptions};

const IN: &str = "todds.txt";

fn opts(preset: Preset) -> ToddsOptions {
    ToddsOptions { preset, ..Default::default() }
}

#[test]
fn parses_installed_and_pending_updates() {
    let acf = r#""AppWorkshop" { "appid" "294100"
      "WorkshopItemsInstalled" { "111" { "size" "1" "timeupdated" "100" "manifest" "9" } "222" { "timeupdated" "200" } }
      "WorkshopItemDetails" { "111" { "timeupdated" "100" "latest_timeupdated" "150" } "222" { "timeupdated" "200" "latest_timeupdated" "200" } "333" { "latest_timeupdated" "5" } } }"#;
    let m = parse(acf);
    assert!(m.get("111").unwrap().outdated());
    assert!(!m.get("222").unwrap().outdated());
    assert!(!m.get("333").unwrap().outdated());
    assert_eq!(m.get("111").unwrap().updated, 100);
    assert!(parse("garbage").is_empty());
}

#[test]
fn outdated_needs_an_installed_version() {
    assert!(!WorkshopTimes { updated: 0, latest: 9 }.outdated());
    assert!(WorkshopTimes { updated: 1, latest: 9 }.outdated());
    assert!(!WorkshopTimes { updated: 9, latest: 9 }.outdated());
}

#[test]
fn optimized_and_clean_presets() {
    let a = build_args(&opts(Preset::Optimized), IN);
    assert_eq!(a.join(" "), "-f BC1 -af BC7 -on -vf -fs -ss Textures -t -p todds.txt");
    let mut o = opts(Preset::Optimized);
    o.overwrite = true;
    assert!(build_args(&o, IN).contains(&"-o".to_owned()));
    assert_eq!(build_args(&opts(Preset::Clean), IN).join(" "), "-cl -o -ss Textures -p -t todds.txt");
}

#[test]
fn dry_run_drops_progress_and_lists_files() {
    let mut o = opts(Preset::Optimized);
    o.dry_run = true;
    let a = build_args(&o, IN);
    assert!(!a.contains(&"-p".to_owned()) && !a.contains(&"-t".to_owned()));
    assert_eq!(&a[a.len() - 3..], ["-v", "-dr", IN]);
}

#[test]
fn custom_gets_progress_and_input() {
    let mut o = opts(Preset::Custom);
    o.custom_command = r#"-f BC7 -ss "My Mods""#.into();
    assert_eq!(build_args(&o, IN), ["-f", "BC7", "-ss", "My Mods", "-p", IN]);
    o.custom_command = "-f BC7 -p".into();
    assert_eq!(build_args(&o, IN), ["-f", "BC7", "-p", IN]);
}

#[test]
fn parses_progress_and_presets() {
    assert_eq!(parse_progress("Progress: 12/300"), Some((12, 300)));
    assert_eq!(parse_progress("Launching encoding pipeline."), None);
    assert_eq!(Preset::from_setting("Custom preset"), Preset::Custom);
    assert_eq!(Preset::from_setting("clean"), Preset::Clean);
    assert_eq!(Preset::from_setting(""), Preset::Optimized);
}

#[test]
fn preset_names_read_back() {
    for p in [Preset::Optimized, Preset::Clean, Preset::Custom] {
        assert_eq!(Preset::from_setting(p.setting_name()), p);
    }
}

#[test]
fn archive_urls_name_the_platform() {
    assert_eq!(
        archive_url(Platform::Linux),
        "https://github.com/joseasoler/todds/releases/download/0.4.1/todds_Linux_x86_64_0.4.1.zip"
    );
    assert!(archive_url(Platform::Windows).ends_with("todds_Windows_0.4.1.zip"));
}

#[test]
fn todds_run_decisions() {
    assert!(matches!(check_targets(0), Err(Error::Other(m)) if m == "No mod folders to process"));
    assert!(check_targets(2).is_ok());
    let mut last = String::from("before");
    let (p, shown) = on_output("Progress: 3/10", &mut last);
    assert_eq!(p, Some((3, 10)));
    assert_eq!(shown, "todds: 3/10 textures");
    assert_eq!(last, "before");
    let (p, shown) = on_output("error: bad file", &mut last);
    assert_eq!(p, None);
    assert_eq!(shown, "todds: error: bad file");
    assert_eq!(last, "error: bad file");
    assert!(matches!(run_outcome(true, false, "x", "y"), Err(Error::Cancelled)));
    assert!(run_outcome(false, true, "x", "y").is_ok());
    assert!(matches!(run_outcome(false, false, "exit status: 1", "error: bad file"), Err(Error::Other(m)) if m == "todds failed (exit status: 1): error: bad file"));
}
