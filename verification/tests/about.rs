use rimsort_core::about::{mod_type, parse_mod, pfid_ok, published_id, AboutFile, ModFolder, ScanConfig, Source};
use rimsort_core::mods::ModType;
use rimsort_core::rules::RuleSources;

fn cfg(version: &str) -> ScanConfig {
    ScanConfig {
        game_folder: String::new(),
        local_folder: String::new(),
        workshop_folder: String::new(),
        game_version: version.into(),
        prefer_versioned: true,
        rules: RuleSources::empty(),
    }
}

fn folder(path: &str, name: &str, source: Source) -> ModFolder {
    let pfid = published_id(None, name);
    ModFolder {
        path: path.into(),
        folder: name.into(),
        mod_type: mod_type(source, false, pfid.as_deref(), name, false),
        published_file_id: pfid,
        mtime: 0,
    }
}

const ABOUT: &str = r#"<?xml version="1.0"?><ModMetadata><name>My Mod</name><packageId>Author.MyMod</packageId>
        <author>A</author><supportedVersions><li>1.5</li><li>1.6</li></supportedVersions>
        <modDependencies><li><packageId>Brrainz.Harmony</packageId><displayName>Harmony</displayName></li></modDependencies>
        <modDependenciesByVersion><v1.5><li><packageId>old.dep</packageId></li></v1.5></modDependenciesByVersion>
        <loadAfter><li>A.B</li></loadAfter><forceLoadAfter><li>c.d</li></forceLoadAfter>
        <loadBeforeByVersion><v1.6><li>x.y</li></v1.6></loadBeforeByVersion></ModMetadata>"#;

#[test]
fn parses_rules_and_versions() {
    let m = parse_mod(folder("/t/m", "m", Source::Local), AboutFile::Text(ABOUT.into()), &cfg("1.6.4871 rev590"));
    assert!(m.valid);
    assert_eq!(m.package_id, "author.mymod");
    assert_eq!(m.rules.dependencies[0].package_id, "brrainz.harmony");
    assert_eq!(m.rules.load_after, ["a.b", "c.d"]);
    assert_eq!(m.rules.load_before, ["x.y"]);
    let old = parse_mod(folder("/t/m", "m", Source::Local), AboutFile::Text(ABOUT.into()), &cfg("1.5.1"));
    assert_eq!(old.rules.dependencies[0].package_id, "old.dep");
}

#[test]
fn malformed_is_invalid_not_error() {
    let m = parse_mod(folder("/t/bad", "bad", Source::Local), AboutFile::Text("<<<not xml at all".into()), &cfg("1.6"));
    assert!(!m.valid);
    let e = parse_mod(folder("/t/empty", "empty", Source::Workshop), AboutFile::Missing, &cfg("1.6"));
    assert!(!e.valid);
    assert!(e.invalid_reason.is_some());
}

#[test]
fn workshop_pfid_from_folder() {
    let m = parse_mod(
        folder("/t/12345", "12345", Source::Workshop),
        AboutFile::Text("<ModMetadata><packageId>a.b</packageId></ModMetadata>".into()),
        &cfg("1.6"),
    );
    assert_eq!(m.published_file_id.as_deref(), Some("12345"));
    assert_eq!(m.mod_type, ModType::SteamWorkshop);
}

#[test]
fn published_ids_are_positive_numbers() {
    assert!(pfid_ok("12345"));
    assert!(!pfid_ok("0"));
    assert!(!pfid_ok("12a"));
    assert!(!pfid_ok(""));
    assert_eq!(published_id(Some(" 777 \n"), "x"), Some("777".to_string()));
    assert_eq!(published_id(None, "mymod"), None);
}

#[test]
fn local_source_kinds() {
    assert_eq!(mod_type(Source::Data, false, None, "Core", false), ModType::Ludeon);
    assert_eq!(mod_type(Source::Local, true, Some("55"), "55", true), ModType::SteamCmd);
    assert_eq!(mod_type(Source::Local, false, None, "m", true), ModType::Git);
    assert_eq!(mod_type(Source::Local, false, None, "m", false), ModType::Local);
}

#[test]
fn unreadable_about_is_reported() {
    let m = parse_mod(folder("/t/u", "u", Source::Local), AboutFile::Unreadable("denied".into()), &cfg("1.6"));
    assert!(!m.valid);
    assert_eq!(m.invalid_reason.as_deref(), Some("Cannot read About.xml: denied"));
}
