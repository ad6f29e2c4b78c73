use std::path::{Path, PathBuf};

use rust_web_browser_engineering::config::{parse_config_text, AppConfig};

#[test]
fn parses_font_path_relative_to_config_file() {
    let config = parse_config_text("font.path = assets/fonts/custom.ttf", "project/browser.conf").unwrap();

    assert_eq!(
        config.font_path.map(PathBuf::from),
        Some(Path::new("project").join("assets/fonts/custom.ttf"))
    );
}

#[test]
fn uses_system_font_when_font_path_is_not_set() {
    let config = parse_config_text("# use OS default font", "project/browser.conf").unwrap();

    assert_eq!(config.font_path, None);
}

#[test]
fn strips_comments_and_quotes() {
    let config = parse_config_text(
        "font.path = \"assets/fonts/PixelMplus12-Bold.ttf\" # comment",
        "project/browser.conf",
    )
    .unwrap();

    assert_eq!(
        config.font_path.map(PathBuf::from),
        Some(Path::new("project").join("assets/fonts/PixelMplus12-Bold.ttf"))
    );
}

#[test]
fn absolute_font_path_is_kept() {
    let config = parse_config_text("font.path = /usr/share/fonts/a.ttf", "project/browser.conf").unwrap();
    assert_eq!(config.font_path.as_deref(), Some("/usr/share/fonts/a.ttf"));
}

#[test]
fn later_font_path_wins_and_blank_lines_are_skipped() {
    let config = parse_config_text(
        "\r\nfont.path = 'a.ttf'\n\n  # note\nfont.path = b.ttf\n",
        "browser.conf",
    )
    .unwrap();
    assert_eq!(config.font_path.map(PathBuf::from), Some(Path::new("").join("b.ttf")));
}

#[test]
fn config_errors_name_the_line() {
    let err = |text: &str| match parse_config_text(text, "browser.conf") {
        Ok(_) => panic!("expected an error"),
        Err(e) => e,
    };
    assert_eq!(err("\nfont.path"), "line 2: expected `key = value`");
    assert_eq!(err("font.path ="), "line 1: missing value");
    assert_eq!(err("font.path = \"  \""), "line 1: empty value");
    assert_eq!(err("# c\n\ncolor = red"), "line 3: unsupported key `color`");
    assert_eq!(err("color ="), "line 1: missing value");
}

#[test]
fn default_config_has_no_font() {
    let config = AppConfig::default();
    assert!(config.font_path.is_none());
}
