use rimsort_core::mod_id::ModId;
use rimsort_core::search::{
    clip, compile, ext_ok, finish, line_matches, normalized_exts, out_of_room, search_file, text_of, too_large,
    SearchHit, SearchQuery,
};

fn q(text: &str) -> SearchQuery {
    SearchQuery { text: text.into(), regex: false, case_sensitive: false, extensions: vec![], file_names: false }
}

struct Acc {
    hits: Vec<SearchHit>,
    total: usize,
    truncated: bool,
    files: usize,
}

fn file(query: &SearchQuery, acc: &mut Acc, rel: &str, name: &str, content: Option<&str>) {
    let m = compile(query).unwrap();
    let id = ModId::from_path("/mods/m");
    let path = format!("/mods/m/{rel}");
    search_file(
        &m,
        query.file_names,
        id,
        "Mod",
        &path,
        rel,
        name,
        content,
        &mut acc.hits,
        &mut acc.total,
        &mut acc.truncated,
        &mut acc.files,
    );
}

fn acc() -> Acc {
    Acc { hits: vec![], total: 0, truncated: false, files: 0 }
}

#[test]
fn finds_lines_and_counts_files() {
    let mut a = acc();
    let needle = q("needle");
    file(&needle, &mut a, "Defs/a.xml", "a.xml", Some("<x>\n  <defName>Needle</defName>\n</x>\n"));
    file(&needle, &mut a, "notes.txt", "notes.txt", Some("a needle here"));
    file(&needle, &mut a, "bin.dat", "bin.dat", None);
    let mut rels: Vec<_> = a.hits.iter().map(|h| (h.rel.as_str(), h.line)).collect();
    rels.sort();
    assert_eq!(rels, [("Defs/a.xml", 2), ("notes.txt", 1)]);
    assert_eq!(a.hits[0].text, "<defName>Needle</defName>");
    assert_eq!((a.total, a.files, a.truncated), (2, 2, false));
}

#[test]
fn case_regex_names_and_bad_patterns() {
    let mut cased = q("needle");
    cased.case_sensitive = true;
    let m = compile(&cased).unwrap();
    assert!(!line_matches(&m, "Needle"));
    assert!(line_matches(&m, "a needle"));
    let mut rx = q(r"<defName>\w+</defName>");
    rx.regex = true;
    assert!(line_matches(&compile(&rx).unwrap(), "<defName>Abc</defName>"));
    rx.text = "(".into();
    assert!(compile(&rx).is_err());
    assert!(compile(&q("")).is_err());
    let escaped = compile(&q("a.b")).unwrap();
    assert!(!line_matches(&escaped, "axb"));
    let mut names = q("a.xml");
    names.file_names = true;
    let mut a = acc();
    file(&names, &mut a, "Defs/a.xml", "a.xml", Some("nothing"));
    assert_eq!(a.hits[0].line, 0);
    assert_eq!(a.hits[0].text, "Defs/a.xml");
}

#[test]
fn extensions_are_normalised_and_filter_files() {
    let e = normalized_exts(&vec![".XML".into(), "  ".into(), "..txt ".into()]);
    assert_eq!(e, ["xml", "txt"]);
    assert!(ext_ok(Some("Xml"), &e));
    assert!(!ext_ok(Some("dat"), &e));
    assert!(!ext_ok(None, &e));
    assert!(ext_ok(None, &vec![]));
}

#[test]
fn per_mod_cap_truncates() {
    let text: String = (0..70).map(|i| format!("hit {i}\n")).collect();
    let mut a = acc();
    file(&q("hit"), &mut a, "big.txt", "big.txt", Some(&text));
    assert_eq!(a.hits.len(), 60);
    assert_eq!(a.total, 60);
    assert!(a.truncated);
    assert_eq!(a.hits[59].line, 60);
}

#[test]
fn overall_cap_and_sizes() {
    assert!(!out_of_room(999));
    assert!(out_of_room(1000));
    assert!(too_large(2 * 1024 * 1024 + 1));
    assert!(!too_large(2 * 1024 * 1024));
}

#[test]
fn binary_files_are_skipped() {
    assert_eq!(text_of(b"needle\0\0"), None);
    assert_eq!(text_of(b"plain").as_deref(), Some("plain"));
    assert_eq!(text_of(b"a\xFFb").as_deref(), Some("a\u{FFFD}b"));
}

#[test]
fn long_lines_are_clipped() {
    let long = "x".repeat(300);
    let c = clip(&long);
    assert_eq!(c.chars().count(), 241);
    assert!(c.ends_with('…'));
    assert_eq!(clip("short"), "short");
}

fn hit(mod_name: &str, line: u32) -> SearchHit {
    SearchHit {
        mod_id: ModId::from_path(mod_name),
        mod_name: mod_name.into(),
        path: String::new(),
        rel: String::new(),
        line,
        text: String::new(),
    }
}

#[test]
fn results_ordered_by_mod_name_and_capped() {
    let per_mod = vec![vec![hit("beta", 1), hit("beta", 2)], vec![], vec![hit("Alpha", 7)], vec![hit("alpha", 9)]];
    let r = finish(&per_mod, false, 3, 12);
    let order: Vec<_> = r.hits.iter().map(|h| (h.mod_name.as_str(), h.line)).collect();
    assert_eq!(order, [("Alpha", 7), ("alpha", 9), ("beta", 1), ("beta", 2)]);
    assert!(!r.truncated);
    assert_eq!((r.files_searched, r.ms), (3, 12));

    let many: Vec<Vec<SearchHit>> = (0..20).map(|i| (0..60).map(|l| hit(&format!("m{i:02}"), l)).collect()).collect();
    let r = finish(&many, false, 0, 0);
    assert_eq!(r.hits.len(), 1000);
    assert!(r.truncated);
}
