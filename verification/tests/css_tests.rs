use rust_web_browser_engineering::css::{parse_inline_declarations, Parser};

#[test]
fn inline_style_declarations_expand_border_shorthand() {
    let declarations = parse_inline_declarations("background: #cfe; border: 2px solid #c96b00;");

    assert!(declarations
        .iter()
        .any(|declaration| { declaration.name == "background" && declaration.value == "#cfe" }));
    assert!(declarations
        .iter()
        .any(|declaration| { declaration.name == "border-width" && declaration.value == "2px" }));
    assert!(declarations
        .iter()
        .any(|declaration| { declaration.name == "border-color" && declaration.value == "#c96b00" }));
}

#[test]
fn list_style_shorthand_expands_type_and_position() {
    let declarations = parse_inline_declarations("list-style: none inside;");

    assert!(declarations
        .iter()
        .any(|declaration| { declaration.name == "list-style-type" && declaration.value == "none" }));
    assert!(declarations
        .iter()
        .any(|declaration| { declaration.name == "list-style-position" && declaration.value == "inside" }));
}

#[test]
fn stylesheet_skips_comments_and_at_rules_and_splits_selectors() {
    let sheet = Parser::new(
        "/* c */ @media screen { p { color: red; } } h1, .big { font-size: 32px; color: blue }".to_string(),
    )
    .parse_stylesheet();
    assert_eq!(sheet.rules.len(), 1);
    let rule = &sheet.rules[0];
    let selectors: Vec<&str> = rule.selectors.iter().map(|s| s.simple.as_str()).collect();
    assert_eq!(selectors, vec!["h1", ".big"]);
    let decls: Vec<(&str, &str)> = rule
        .declarations
        .iter()
        .map(|d| (d.name.as_str(), d.value.as_str()))
        .collect();
    assert_eq!(decls, vec![("font-size", "32px"), ("color", "blue")]);
}
