use rimsort_core::xml::{decode_bytes, parse};

#[test]
fn tolerant_parse() {
    let root = parse("\u{feff}<?xml version=\"1.0\"?><A x='1>2'><b>a &amp; b &nbsp; 1 < 2</b><c>unclosed<d/></A>");
    let a = root.child("a").unwrap();
    assert_eq!(a.child("B").unwrap().trimmed(), "a & b \u{a0} 1 < 2");
    assert_eq!(a.child("c").unwrap().children[0].name, "d");
}

#[test]
fn attrs_and_rimsort_li() {
    let r = parse(
        r#"<a><li MayRequire="x.y">skip</li><li>keep</li><li IgnoreIfNoMatchingField="True">also</li><li A="1" B='two words'>no</li></a>"#,
    );
    assert_eq!(r.child("a").unwrap().li_texts_rimsort(), ["keep", "also"]);
    assert_eq!(r.child("a").unwrap().li_texts().len(), 4);
}

#[test]
fn roundtrip_write() {
    let root = parse("<R><v>1</v><l><li>a</li><li>b&amp;c</li></l></R>");
    let out = rimsort_core::xml::write(root.child("R").unwrap());
    assert!(out.contains("<li>b&amp;c</li>") && out.contains("  <v>1</v>"));
}

#[test]
fn written_document_parses_back_to_the_same_texts() {
    let root = parse("<R><v>x &lt; y</v><l><li>a</li><li>b</li></l></R>");
    let again = parse(&rimsort_core::xml::write(root.child("R").unwrap()));
    let r = again.child("R").unwrap();
    assert_eq!(r.child_text("v"), Some("x < y"));
    assert_eq!(r.child("l").unwrap().li_texts(), ["a", "b"]);
}

#[test]
fn numeric_character_references_decode() {
    let root = parse("<a>&#65;&#x42;</a>");
    assert_eq!(root.child("a").unwrap().trimmed(), "AB");
}

#[test]
fn bytes_decode_with_bom_utf8_and_latin_fallback() {
    assert_eq!(decode_bytes(b"\xEF\xBB\xBFhi"), "hi");
    assert_eq!(decode_bytes("h\u{e9}".as_bytes()), "h\u{e9}");
    assert_eq!(decode_bytes(b"caf\xE9"), "caf\u{e9}");
}

#[test]
fn text_without_tags_gives_a_bare_root() {
    let r = parse("just text & more");
    assert_eq!(r.name, "#root");
    assert!(r.attrs.is_empty());
    assert!(r.children.is_empty());
}
