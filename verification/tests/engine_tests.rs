use rust_web_browser_engineering::dom::{elem, text, Attributes, NodeType};
use rust_web_browser_engineering::html::{extract_charset, parse};
use rust_web_browser_engineering::image::{
    file_url_path, image_source, image_src_is_safe, natural_size_of_bytes, percent_decode_minimal, ImageSource,
};
use rust_web_browser_engineering::url::{is_valid_url, URL};
use rust_web_browser_engineering::utility::url_utils::{normalized_key_against, url_to_abs_string};

fn tag_of(n: &rust_web_browser_engineering::dom::Node) -> String {
    match &n.node_type {
        NodeType::Element(e) => e.tag_name.clone(),
        NodeType::Text(t) => format!("#text {}", t),
    }
}

#[test]
fn every_document_gets_html_head_and_body() {
    for src in ["", "plain text", "<title>T</title><p>x</p>", "<html><body><p>a</p></body></html>"] {
        let dom = parse(src.to_string());
        assert_eq!(tag_of(&dom), "html");
        let kids: Vec<String> = dom.children.iter().map(tag_of).collect();
        assert_eq!(kids, vec!["head".to_string(), "body".to_string()]);
    }
    let dom = parse("<title>T</title><p>x</p>".to_string());
    assert_eq!(tag_of(&dom.children[0].children[0]), "title");
    assert_eq!(tag_of(&dom.children[1].children[0]), "p");
}

#[test]
fn entities_and_case_are_normalized() {
    let dom = parse("<P CLASS=x>a &amp; b &lt;c&gt;</P>".to_string());
    let p = &dom.children[1].children[0];
    match &p.node_type {
        NodeType::Element(e) => {
            assert_eq!(e.tag_name, "p");
            assert_eq!(e.attributes.get("class").map(|s| s.as_str()), Some("x"));
        },
        _ => panic!("expected p"),
    }
    assert_eq!(tag_of(&p.children[0]), "#text a & b <c>");
}

#[test]
fn attributes_behave_as_a_map() {
    let mut a = Attributes::new();
    a.insert("k".to_string(), "1".to_string());
    a.insert("j".to_string(), "2".to_string());
    a.insert("k".to_string(), "3".to_string());
    assert_eq!(a.len(), 2);
    assert_eq!(a.get("k").map(|s| s.as_str()), Some("3"));
    assert!(a.contains_key("j"));
    assert!(!a.contains_key("x"));
    let e = elem("a".to_string(), a, vec![text("t".to_string())]);
    match &e.node_type {
        NodeType::Element(d) => assert_eq!(d.classes().len(), 0),
        _ => panic!("expected element"),
    }
}

#[test]
fn meta_charset_is_found_in_document_order() {
    let dom = parse(r#"<meta http-equiv="Content-Type" content="text/html; charset=Shift_JIS"><meta charset="utf-8">"#.to_string());
    assert_eq!(extract_charset(&dom).map(|c| c.to_lowercase()).as_deref(), Some("shift_jis"));
}

#[test]
fn urls_parse_resolve_and_print() {
    let u = URL::new("https://example.com:8443/a/b.html?x=1");
    assert_eq!(u.port, 8443);
    assert_eq!(url_to_abs_string(&u), "https://example.com:8443/a/b.html?x=1");
    let v = URL::new("http://example.com");
    assert_eq!(url_to_abs_string(&v), "http://example.com/");
    assert!(u.can_resolve("../c.html"));
    assert!(!u.can_resolve("http://h:70000/"));
    assert_eq!(u.resolve_location("?q=2").path, "/a/b.html?q=2");
    assert_eq!(u.resolve_location("c.html").path, "/a/c.html");
    assert_eq!(u.resolve_location("//other.org/z").host, "other.org");
    assert_eq!(normalized_key_against(&u, "  ").as_deref(), None);
    assert!(is_valid_url("file:///tmp/x"));
    assert!(!is_valid_url("ftp://x"));
    assert!(!is_valid_url("no scheme"));
}

#[test]
fn image_sources_are_classified() {
    assert!(image_src_is_safe(" https://example.com/a.png "));
    match image_source(" https://example.com/a.png ") {
        Some(ImageSource::Network(u)) => assert_eq!(u, "https://example.com/a.png"),
        _ => panic!("expected a network source"),
    }
    match image_source("FILE://localhost/C:/img/a%20b.png") {
        Some(ImageSource::FileUrl(p)) => assert_eq!(p.as_deref(), Some("C:/img/a b.png")),
        _ => panic!("expected a file URL"),
    }
    assert_eq!(file_url_path("file://localhost"), None);
    assert_eq!(file_url_path("file:///home/u/a.png").as_deref(), Some("/home/u/a.png"));
    match image_source("D:\\pics\\x.png") {
        Some(ImageSource::LocalPath(p)) => assert_eq!(p, "D:\\pics\\x.png"),
        _ => panic!("expected a local path"),
    }
    assert!(image_source("relative.png").is_none());
    assert!(image_source("   ").is_none());
    assert!(!image_src_is_safe("abcdefé"));
}

#[test]
fn percent_decoding_is_minimal() {
    assert_eq!(percent_decode_minimal("a%41%zz%4"), "aA%zz%4");
    assert_eq!(percent_decode_minimal("%E3%81%82"), "あ");
    assert_eq!(percent_decode_minimal("%FF"), "%FF");
}

#[test]
fn natural_size_comes_from_the_decoded_image() {
    let img = image::RgbImage::new(3, 2);
    let mut bytes: Vec<u8> = Vec::new();
    img.write_to(&mut std::io::Cursor::new(&mut bytes), image::ImageFormat::Png).unwrap();
    assert_eq!(natural_size_of_bytes(&bytes), Some((3, 2)));
    assert_eq!(natural_size_of_bytes(b"not an image"), None);
}
