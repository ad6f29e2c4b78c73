use rust_web_browser_engineering::color::{color_text_ok, parse_css_color, CssColor, NamedColor};
use rust_web_browser_engineering::config::{join_base, parse_config_text, resolve_path};
use rust_web_browser_engineering::css::Parser;
use rust_web_browser_engineering::display::{append_collected_layers, StackingContextCollector, StackingContextPaint};
use rust_web_browser_engineering::dom::Attributes;
use rust_web_browser_engineering::http::Response;
use rust_web_browser_engineering::page::{
    first_visit, import_depth_allows, import_response_usable, page_text, MAX_CSS_IMPORT_DEPTH,
};
use rust_web_browser_engineering::selector::selector_fits;
use rust_web_browser_engineering::url::URL;
use rust_web_browser_engineering::utility::url_utils::{normalize_against, url_to_abs_string};

fn response(status_code: u16, content_type: Option<&str>, body: &[u8]) -> Response {
    Response { status_code, headers: Attributes::new(), body: body.to_vec(), content_type: content_type.map(str::to_string) }
}

#[test]
fn page_text_decodes_in_the_chosen_charset() {
    let sjis: Vec<u8> = vec![0x90, 0xa2, 0x8a, 0x45];
    let r = response(200, Some("text/html; charset=Shift_JIS"), &sjis);
    assert_eq!(page_text(&r), "世界");
    let mut body = b"<meta charset=\"shift_jis\"><p>".to_vec();
    body.extend_from_slice(&sjis);
    let r = response(200, None, &body);
    assert!(page_text(&r).ends_with("<p>世界"));
    let r = response(200, Some("text/html; charset=bogus"), "é".as_bytes());
    assert_eq!(page_text(&r), "é");
}

#[test]
fn join_base_keeps_absolute_paths_and_falls_back_to_dot() {
    assert_eq!(join_base(true, Some("dir".to_string())), None);
    assert_eq!(join_base(false, Some("dir".to_string())), Some("dir".to_string()));
    assert_eq!(join_base(false, None), Some(".".to_string()));
}

#[test]
fn resolve_path_joins_relative_paths_onto_the_config_directory() {
    let joined = resolve_path("project/browser.conf", "fonts/a.ttf");
    assert_eq!(std::path::PathBuf::from(joined), std::path::Path::new("project").join("fonts/a.ttf"));
    let abs_s = "/fonts/a.ttf";
    assert_eq!(resolve_path("project/browser.conf", abs_s), abs_s);
    assert!(!resolve_path("browser.conf", "x").is_empty());
}

#[test]
fn imports_are_followed_once_to_a_bounded_depth() {
    assert!(import_depth_allows(0));
    assert!(import_depth_allows(MAX_CSS_IMPORT_DEPTH));
    assert!(!import_depth_allows(MAX_CSS_IMPORT_DEPTH + 1));
    let mut visited = Vec::new();
    assert!(first_visit(&mut visited, "http://a/x.css".to_string()));
    assert!(!first_visit(&mut visited, "http://a/x.css".to_string()));
    assert!(first_visit(&mut visited, "http://a/y.css".to_string()));
    assert_eq!(visited, vec!["http://a/x.css".to_string(), "http://a/y.css".to_string()]);
    assert!(import_response_usable(&response(200, Some("text/css; charset=utf-8"), b"p{}")));
    assert!(!import_response_usable(&response(404, Some("text/css"), b"p{}")));
    assert!(!import_response_usable(&response(200, Some("text/html"), b"p{}")));
    assert!(!import_response_usable(&response(200, Some("text/css"), b"")));
    assert!(!import_response_usable(&response(0, Some("text/css"), b"p{}")));
}

#[test]
fn selector_specificity_fits_its_counters() {
    let sel: Vec<char> = "div.a > p#b span".chars().collect();
    assert!(selector_fits(&sel));
    let empty: Vec<char> = Vec::new();
    assert!(selector_fits(&empty));
}

#[test]
fn absolute_strings_parse_back_to_the_same_url() {
    for s in ["http://example.com/a/b?c", "https://example.com:8443/x", "http://h:80/p", "https://h", "http://h:443/"] {
        let u = URL::new(s);
        let back = URL::new(&url_to_abs_string(&u));
        assert_eq!((back.scheme.clone(), back.host.clone(), back.port, back.path.clone()), (u.scheme.clone(), u.host.clone(), u.port, u.path.clone()));
    }
}

#[test]
fn parsed_stylesheets_are_well_formed() {
    let sheet = Parser::new(
        " , h1 , .a.b ,{ color : red ; border: 1px solid blue; list-style: Square inside } @media x { p {} } p,div{margin: 0 auto ;}".to_string(),
    )
    .parse_stylesheet();
    assert!(!sheet.rules.is_empty());
    for rule in &sheet.rules {
        assert!(!rule.selectors.is_empty());
        for sel in &rule.selectors {
            assert!(!sel.simple.is_empty() && sel.simple.trim() == sel.simple && !sel.simple.contains(','));
        }
        for d in &rule.declarations {
            assert!(!d.name.is_empty() && d.name.chars().all(|c| c.is_alphanumeric() || c == '-' || c == '_'));
            assert_eq!(d.value.trim(), d.value);
        }
    }
}

#[test]
fn stacking_contexts_paint_by_layer_then_level_then_order() {
    let mut collector: StackingContextCollector<&str> = StackingContextCollector::new();
    collector.normal_items.push("flow");
    let mut add = |c: &mut StackingContextCollector<&'static str>, level: i32, item: &'static str| {
        let order = c.take_order();
        c.child_contexts.push(StackingContextPaint { level, order, items: vec![item] });
    };
    add(&mut collector, 2, "pos2-first");
    add(&mut collector, -1, "neg1");
    add(&mut collector, 0, "zero-first");
    add(&mut collector, 1, "pos1");
    add(&mut collector, -3, "neg3");
    add(&mut collector, 0, "zero-second");
    add(&mut collector, 2, "pos2-second");
    let mut out = vec!["before"];
    append_collected_layers(&mut out, collector);
    assert_eq!(
        out,
        vec!["before", "neg3", "neg1", "flow", "zero-first", "zero-second", "pos1", "pos2-first", "pos2-second"]
    );
}

#[test]
fn colours_are_read_as_integers_and_arguments() {
    fn hex(s: &str) -> Option<(u8, u8, u8)> {
        match parse_css_color(s) {
            Some(CssColor::Hex(r, g, b)) => Some((r, g, b)),
            _ => None,
        }
    }
    assert_eq!(hex(" #0F8 "), Some((0x00, 0xff, 0x88)));
    assert_eq!(hex("#1a2B3c"), Some((0x1a, 0x2b, 0x3c)));
    assert!(parse_css_color("#12").is_none());
    assert!(parse_css_color("#zzzzzz").is_none());
    assert!(matches!(parse_css_color("Transparent"), Some(CssColor::Transparent)));
    assert!(matches!(parse_css_color("grey"), Some(CssColor::Named(NamedColor::Gray))));
    assert!(matches!(parse_css_color("yellow"), Some(CssColor::Named(NamedColor::Yellow))));
    assert!(parse_css_color("purple").is_none());
    match parse_css_color("rgba( 0, 0 ,255, 0.5))") {
        Some(CssColor::Functional(parts)) => assert_eq!(parts, vec!["0", "0", "255", "0.5"]),
        _ => panic!("expected rgba arguments"),
    }
    assert!(parse_css_color("rgb(1, 2)").is_none());
    assert!(color_text_ok("#abc"));
    assert!(!color_text_ok("#é1"));
    assert!(color_text_ok("#éé11"));
    assert!(parse_css_color("#éé11").is_none());
}

#[test]
fn links_resolve_the_same_with_surrounding_space() {
    let base = URL::new("https://example.com/dir/page.html");
    let a = normalize_against(&base, "  ../x.png \n");
    let b = base.resolve_location("../x.png");
    let c = base.resolve_location("  ../x.png \n");
    assert_eq!(url_to_abs_string(&a), url_to_abs_string(&b));
    assert_eq!(url_to_abs_string(&a), url_to_abs_string(&c));
}

#[test]
fn config_font_path_joins_onto_the_config_directory() {
    let c = parse_config_text("font.path = \"fonts/a.ttf\" # note", "project/browser.conf").unwrap();
    let p = c.font_path.unwrap();
    assert!(p == "project/fonts/a.ttf" || p == "project\\fonts/a.ttf");
}

#[test]
fn resolve_path_keeps_every_directory_of_an_absolute_config_path() {
    let joined = resolve_path("/home/u/project/browser.conf", "fonts/a.ttf");
    assert!(joined == "/home/u/project/fonts/a.ttf" || joined == "/home/u/project\\fonts/a.ttf");
}

#[test]
fn resolve_path_keeps_every_directory_of_a_relative_config_path() {
    let joined = resolve_path("a/b/c.conf", "x");
    assert!(joined == "a/b/x" || joined == "a/b\\x");
}

#[test]
fn parse_config_text_resolves_against_a_deep_config_directory() {
    let config = parse_config_text("font.path = a.ttf", "/home/u/project/browser.conf").unwrap();
    let path = config.font_path.unwrap();
    assert!(path == "/home/u/project/a.ttf" || path == "/home/u/project\\a.ttf");
}
