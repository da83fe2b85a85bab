use rimsort_core::paths::{install_dir, library_paths, parse_vdf, Vdf};

#[test]
fn vdf_libraryfolders_and_acf() {
    let v = parse_vdf(
        "\"libraryfolders\"\n{\n\t\"0\"\n\t{\n\t\t\"path\"\t\"C:\\\\Program Files (x86)\\\\Steam\"\n\t\t\"apps\" { \"1\" \"2\" }\n\t}\n\t\"1\" \"D:\\\\Old\"\n}",
    );
    let Some(Vdf::Dict(e)) = v.get("libraryfolders") else {
        panic!()
    };
    assert_eq!(e[0].1.get("path").unwrap().str().unwrap(), r"C:\Program Files (x86)\Steam");
    assert_eq!(e[1].1.str().unwrap(), r"D:\Old");
}

#[test]
fn library_paths_lists_each_library_and_old_plain_entries() {
    let libs = library_paths(
        "\"libraryfolders\" { \"0\" { \"path\" \"C:\\\\Steam\" } \"1\" { \"path\" \"D:\\\\Lib2\" } }",
    );
    assert_eq!(libs, [r"C:\Steam", r"D:\Lib2"]);
    assert!(library_paths("").is_empty());
}

#[test]
fn install_dir_reads_app_manifest() {
    assert_eq!(
        install_dir("\"AppState\" { \"appid\" \"294100\" \"installdir\" \"RimWorld\" }"),
        Some("RimWorld".to_string())
    );
    assert_eq!(install_dir("\"AppState\" { \"appid\" \"294100\" }"), None);
}

#[test]
fn keys_match_without_regard_to_case() {
    let v = parse_vdf("\"A\" { \"Path\" \"x\" }");
    assert_eq!(v.get("a").unwrap().get("PATH").unwrap().str(), Some("x"));
}
