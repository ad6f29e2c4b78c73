use rust_web_browser_engineering::html::parse;
use rust_web_browser_engineering::page::{
    css_import_plan, css_imports_resolvable, encode_form_fields, extract_img_srcs, extract_import_url,
    extract_link_stylesheets, extract_style_text, form_submission_url, image_keys, is_css_content_type,
    page_charset, page_style_text, percent_encode_form_component, CssLine, ImageCache, ImageSizeProvider,
};
use rust_web_browser_engineering::dom::Attributes;
use rust_web_browser_engineering::http::Response;
use rust_web_browser_engineering::style::{FormField, FormSubmit};
use rust_web_browser_engineering::url::URL;

#[test]
fn form_submission_url_builds_get_query() {
    let base = URL::new("https://example.com/index.html");
    let submit = FormSubmit {
        action: Some("/search".to_string()),
        method: "get".to_string(),
        fields: vec![
            FormField { name: "q".to_string(), value: "rust browser".to_string() },
            FormField { name: "lang".to_string(), value: "ja".to_string() },
        ],
    };

    let next = form_submission_url(&base, &submit).expect("GET form should produce url");

    assert_eq!(next.scheme, "https");
    assert_eq!(next.host, "example.com");
    assert_eq!(next.path, "/search?q=rust+browser&lang=ja");
}

#[test]
fn form_submission_url_uses_current_url_without_action() {
    let base = URL::new("https://example.com/page.html?old=1");
    let submit = FormSubmit {
        action: None,
        method: "get".to_string(),
        fields: vec![FormField { name: "q".to_string(), value: "rust".to_string() }],
    };

    let next = form_submission_url(&base, &submit).expect("GET form should produce url");

    assert_eq!(next.path, "/page.html?old=1&q=rust");
}

#[test]
fn post_forms_are_not_submitted_and_components_are_encoded() {
    let base = URL::new("https://example.com/");
    let submit = FormSubmit { action: None, method: "POST".to_string(), fields: Vec::new() };
    assert!(form_submission_url(&base, &submit).is_none());
    let submit = FormSubmit { action: None, method: "GeT".to_string(), fields: Vec::new() };
    assert_eq!(form_submission_url(&base, &submit).unwrap().path, "/");
    assert_eq!(percent_encode_form_component("a b&c=é*~"), "a+b%26c%3D%C3%A9*%7E");
    assert_eq!(
        encode_form_fields(&[
            FormField { name: "k 1".to_string(), value: "v".to_string() },
            FormField { name: "k2".to_string(), value: String::new() },
        ]),
        "k+1=v&k2="
    );
}

#[test]
fn documents_name_their_styles_links_and_images() {
    let dom = parse(
        r#"<html><head><style>p { color: red; }</style><link rel="StyleSheet" href=" /a.css "><link rel="icon" href="/i.png"></head>
        <body><img src="x.png"><img src="data:abc"><img src=" x.png "><link rel="stylesheet" href="javascript:void(0)"></body></html>"#
            .to_string(),
    );
    let mut css = String::new();
    extract_style_text(&dom, &mut css);
    assert_eq!(css, "p { color: red; }\n");
    assert_eq!(page_style_text("ua {}", &dom), "ua {}\np { color: red; }\n");
    let mut links = Vec::new();
    extract_link_stylesheets(&dom, &mut links);
    assert_eq!(links, vec!["/a.css".to_string()]);
    let mut srcs = Vec::new();
    extract_img_srcs(&dom, &mut srcs);
    assert_eq!(srcs, vec!["x.png".to_string(), "x.png".to_string()]);
    let base = URL::new("https://example.com/dir/page.html");
    assert_eq!(image_keys(&base, &dom), vec!["https://example.com/dir/x.png".to_string()]);
}

#[test]
fn import_urls_are_extracted() {
    let url = |s: &str| extract_import_url(&s.chars().collect::<Vec<char>>());
    assert_eq!(url("@import url(\"a.css\");").as_deref(), Some("a.css"));
    assert_eq!(url("  @import 'b.css' screen;").as_deref(), Some("b.css"));
    assert_eq!(url("@import url(c.css").as_deref(), None);
    assert_eq!(url("p { color: red }").as_deref(), None);
    assert_eq!(url("@import ;").as_deref(), None);
}

#[test]
fn import_plan_resolves_usable_imports_and_keeps_other_lines() {
    let base = URL::new("https://example.com/css/main.css");
    let text = "@import url(theme.css);\n@import '#x';\nbody { margin: 0 }\n";
    assert!(css_imports_resolvable(&base, text));
    let plan = css_import_plan(&base, text);
    assert_eq!(plan.len(), 2);
    match &plan[0] {
        CssLine::Import(u, key) => {
            assert_eq!(u.path, "/css/theme.css");
            assert_eq!(key, "https://example.com/css/theme.css");
        },
        _ => panic!("expected an import"),
    }
    match &plan[1] {
        CssLine::Keep(line) => assert_eq!(line, "body { margin: 0 }"),
        _ => panic!("expected a kept line"),
    }
    assert!(!css_imports_resolvable(&base, "@import url(http://h:99999/x.css);"));
}

#[test]
fn css_content_types_are_recognized() {
    assert!(is_css_content_type(&Some("Text/CSS; charset=utf-8".to_string())));
    assert!(!is_css_content_type(&Some("text/html".to_string())));
    assert!(!is_css_content_type(&None));
}

#[test]
fn page_charset_prefers_header_then_document() {
    let body = br#"<html><head><meta charset="EUC-JP"></head></html>"#.to_vec();
    let r = Response { status_code: 200, headers: Attributes::new(), body: body.clone(), content_type: Some("text/html; charset=Shift_JIS".to_string()) };
    assert_eq!(page_charset(&r), "shift_jis");
    let r = Response { status_code: 200, headers: Attributes::new(), body, content_type: None };
    assert_eq!(page_charset(&r).to_lowercase(), "euc-jp");
    let r = Response { status_code: 200, headers: Attributes::new(), body: b"<p>x</p>".to_vec(), content_type: None };
    assert_eq!(page_charset(&r), "utf-8");
}

#[test]
fn image_cache_keys_and_sizes() {
    let mut cache = ImageCache::new(URL::new("https://example.com/a/b.html"));
    assert_eq!(cache.normalize_src_key("  ").as_deref(), None);
    let key = cache.normalize_src_key(" img/c.png ").expect("key");
    assert_eq!(key, "https://example.com/a/img/c.png");
    assert_eq!(cache.natural_size_px(&key), None);
    cache.insert_size(key.clone(), 3, 4);
    cache.insert_size("other".to_string(), 1, 1);
    cache.insert_size(key.clone(), 5, 6);
    assert_eq!(cache.natural_size_px(&key), Some((5, 6)));
    assert_eq!(cache.natural_size_px("other"), Some((1, 1)));
}
