use rust_web_browser_engineering::css::Parser;
use rust_web_browser_engineering::dom::NodeType;
use rust_web_browser_engineering::html::parse;
use rust_web_browser_engineering::style::{
    form_submit_for_element, implicit_form_submit_for_input, input_value, is_inheritable_prop,
    set_input_value, style_tree, Display, FontSizer, FormField, Position, StyledNode, ZIndex,
};

/// Font sizing that leaves every size at the initial one.
struct PlainSizes;

impl FontSizer for PlainSizes {
    type Metrics = ();

    fn initial(&self) {}

    fn size(
        &self,
        _parent: (),
        _font_size: Option<&String>,
        _line_height: Option<&String>,
        _is_root: bool,
    ) -> ((), String, Option<String>) {
        ((), "16px".to_string(), None)
    }
}

fn styled(html: &str, css: &str) -> StyledNode<()> {
    let dom = parse(html.to_string());
    let stylesheet = Parser::new(css.to_string()).parse_stylesheet();
    style_tree(dom, &stylesheet, &PlainSizes)
}

fn find_element_by_id<'a>(node: &'a StyledNode<()>, id: &str) -> Option<&'a StyledNode<()>> {
    if let NodeType::Element(element) = &node.node.node_type {
        if element.id().map(|s| s.as_str()) == Some(id) {
            return Some(node);
        }
    }
    node.children.iter().find_map(|child| find_element_by_id(child, id))
}

#[test]
fn inheritable_properties_are_centralized() {
    for prop in ["color", "font-size", "font-family", "font-weight", "line-height", "text-decoration"] {
        assert!(is_inheritable_prop(prop));
    }
    assert!(!is_inheritable_prop("background"));
}

#[test]
fn inline_style_attribute_overrides_stylesheet_values() {
    let styled = styled(
        r#"<p><span id="target" style="background: #cfe; border: 2px solid red;">hello</span></p>"#,
        r#"#target { background: blue; border: 1px solid green; }"#,
    );
    let span = find_element_by_id(&styled, "target").expect("target span should exist");

    assert_eq!(span.value("background").map(|value| value.as_str()), Some("#cfe"));
    assert_eq!(span.value("border-width").map(|value| value.as_str()), Some("2px"));
    assert_eq!(span.value("border-color").map(|value| value.as_str()), Some("red"));
}

#[test]
fn child_selector_matches_only_direct_children() {
    let styled = styled(
        r#"
            <main>
                <p id="direct">direct child</p>
                <section>
                    <p id="nested">nested child</p>
                </section>
            </main>
            "#,
        r#"main>p { color: red; }"#,
    );
    let direct = find_element_by_id(&styled, "direct").expect("direct paragraph should exist");
    let nested = find_element_by_id(&styled, "nested").expect("nested paragraph should exist");

    assert_eq!(direct.value("color").map(|value| value.as_str()), Some("red"));
    assert_eq!(nested.value("color").map(|value| value.as_str()), None);
}

#[test]
fn attribute_selector_matches_element_attributes() {
    let styled = styled(
        r#"
            <form>
                <input id="submit" type="submit" value="Search">
                <input id="text" type="text" value="Search">
            </form>
            "#,
        r#"
            input { background: #ffffff; }
            input[type=submit] { background: #f3f3f3; }
            "#,
    );
    let submit = find_element_by_id(&styled, "submit").expect("submit input should exist");
    let text = find_element_by_id(&styled, "text").expect("text input should exist");

    assert_eq!(submit.value("background").map(|value| value.as_str()), Some("#f3f3f3"));
    assert_eq!(text.value("background").map(|value| value.as_str()), Some("#ffffff"));
}

#[test]
fn form_context_collects_successful_input_fields_for_submitter() {
    let styled = styled(
        r#"
            <form action="/search" method="get">
                <input name="q" value="rust browser">
                <input name="empty">
                <input type="checkbox" name="checked" value="yes" checked>
                <input type="checkbox" name="unchecked" value="no">
                <input type="submit" id="submit" name="btn" value="Search">
            </form>
            "#,
        "",
    );
    let submit = find_element_by_id(&styled, "submit").expect("submit input should exist");
    let form_submit = form_submit_for_element(submit).expect("submit should be activatable");

    assert_eq!(form_submit.action.as_deref(), Some("/search"));
    assert_eq!(form_submit.method, "get");
    assert_eq!(
        form_submit.fields,
        vec![
            FormField { name: "q".to_string(), value: "rust browser".to_string() },
            FormField { name: "empty".to_string(), value: String::new() },
            FormField { name: "checked".to_string(), value: "yes".to_string() },
            FormField { name: "btn".to_string(), value: "Search".to_string() },
        ]
    );
}

#[test]
fn set_input_value_refreshes_form_submit_fields() {
    let mut styled = styled(
        r#"
            <form action="/search">
                <input id="q" name="q" value="old">
                <input type="submit" id="submit" value="Search">
            </form>
            "#,
        "",
    );
    let input_key = find_element_by_id(&styled, "q")
        .and_then(|node| node.input_key.clone())
        .expect("editable input should have key");

    assert!(set_input_value(&mut styled, &input_key, "new value".to_string()));

    let submit = find_element_by_id(&styled, "submit").expect("submit input should exist");
    let form_submit = form_submit_for_element(submit).expect("submit should be activatable");

    assert_eq!(
        form_submit.fields,
        vec![FormField { name: "q".to_string(), value: "new value".to_string() }]
    );
}

#[test]
fn child_selector_can_mix_with_descendant_selector() {
    let styled = styled(
        r#"
            <section>
                <div>
                    <main>
                        <article>
                            <p id="target" class="note">hit</p>
                        </article>
                        <article>
                            <div>
                                <p id="nested" class="note">miss</p>
                            </div>
                        </article>
                    </main>
                </div>
            </section>
            "#,
        r#"section main > article > p.note { color: blue; }"#,
    );
    let target = find_element_by_id(&styled, "target").expect("target paragraph should exist");
    let nested = find_element_by_id(&styled, "nested").expect("nested paragraph should exist");

    assert_eq!(target.value("color").map(|value| value.as_str()), Some("blue"));
    assert_eq!(nested.value("color").map(|value| value.as_str()), None);
}

#[test]
fn display_inline_block_is_supported() {
    let styled = styled(r#"<p><span id="target">badge</span></p>"#, r#"#target { display: inline-block; }"#);
    let target = find_element_by_id(&styled, "target").expect("target span should exist");

    assert_eq!(target.display(), Display::InlineBlock);
}

#[test]
fn display_flex_is_supported() {
    let styled = styled(r#"<div id="target"></div>"#, r#"#target { display: flex; }"#);
    let target = find_element_by_id(&styled, "target").expect("target div should exist");

    assert_eq!(target.display(), Display::Flex);
}

#[test]
fn more_specific_rule_wins_and_later_rule_breaks_ties() {
    let styled = styled(
        r#"<p id="x" class="c">t</p>"#,
        "#x { color: red; } p { color: blue; } .c { background: a; } p.c { background: b; } .c { background: c; }",
    );
    let p = find_element_by_id(&styled, "x").unwrap();
    assert_eq!(p.value("color").map(|v| v.as_str()), Some("red"));
    assert_eq!(p.value("background").map(|v| v.as_str()), Some("b"));
}

#[test]
fn inherited_properties_reach_descendants() {
    let styled = styled(
        r#"<div id="outer"><span id="inner">t</span></div>"#,
        "#outer { color: green; background: yellow; text-decoration: underline; }",
    );
    let inner = find_element_by_id(&styled, "inner").unwrap();
    assert_eq!(inner.value("color").map(|v| v.as_str()), Some("green"));
    assert_eq!(inner.value("text-decoration").map(|v| v.as_str()), Some("underline"));
    assert_eq!(inner.value("background"), None);
    assert_eq!(inner.value("font-size").map(|v| v.as_str()), Some("16px"));
}

#[test]
fn hidden_elements_and_inputs_are_not_displayed() {
    let styled = styled(
        r#"<div id="d"></div><span id="s"></span><input id="h" type=" HIDDEN "><p id="p" style="display: none"></p>"#,
        "",
    );
    assert_eq!(find_element_by_id(&styled, "d").unwrap().display(), Display::Block);
    assert_eq!(find_element_by_id(&styled, "s").unwrap().display(), Display::Inline);
    assert_eq!(find_element_by_id(&styled, "h").unwrap().display(), Display::Hidden);
    assert_eq!(find_element_by_id(&styled, "p").unwrap().display(), Display::Hidden);
}

#[test]
fn keyword_properties_are_read_from_values() {
    let styled = styled(
        r#"<div id="a" style="position: sticky; float: right; clear: both; z-index: -7"></div><div id="b" style="z-index: 1x"></div>"#,
        "",
    );
    let a = find_element_by_id(&styled, "a").unwrap();
    assert_eq!(a.position(), Position::Sticky);
    assert!(a.position().behaves_like_relative());
    assert!(a.float().is_floating());
    assert_eq!(a.z_index(), ZIndex::Integer(-7));
    assert_eq!(a.z_index().stack_level(), Some(-7));
    let b = find_element_by_id(&styled, "b").unwrap();
    assert_eq!(b.z_index(), ZIndex::Auto);
    assert!(!b.position().is_positioned());
}

#[test]
fn links_are_numbered_in_document_order() {
    let styled = styled(
        r##"<p><a id="one" href=" /a "><b id="in">x</b></a><a id="skip" href="#top">y</a><a id="two" href="/b">z</a></p>"##,
        "",
    );
    let one = find_element_by_id(&styled, "one").unwrap();
    assert_eq!(one.link_href.as_deref(), Some("/a"));
    assert_eq!(one.link_id, Some(1));
    let inner = find_element_by_id(&styled, "in").unwrap();
    assert_eq!(inner.link_id, Some(1));
    assert_eq!(find_element_by_id(&styled, "skip").unwrap().link_id, None);
    assert_eq!(find_element_by_id(&styled, "two").unwrap().link_id, Some(2));
}

#[test]
fn editable_inputs_get_keys_and_values() {
    let styled = styled(
        r#"<form><input id="q" name="q" value="v"><input id="c" type="checkbox"></form>"#,
        "",
    );
    let q = find_element_by_id(&styled, "q").unwrap();
    let key = q.input_key.clone().expect("key");
    assert!(key.starts_with("input:0."));
    assert_eq!(input_value(&styled, &key).as_deref(), Some("v"));
    assert_eq!(find_element_by_id(&styled, "c").unwrap().input_key, None);
    let implicit = implicit_form_submit_for_input(q).expect("implicit submit");
    assert_eq!(implicit.method, "get");
    assert_eq!(implicit.fields, vec![FormField { name: "q".to_string(), value: "v".to_string() }]);
}

#[test]
fn set_input_value_with_unknown_key_changes_nothing() {
    let mut styled = styled(r#"<form><input id="q" name="q" value="v"></form>"#, "");
    assert!(!set_input_value(&mut styled, "input:9", "x".to_string()));
    assert_eq!(input_value(&styled, "input:9"), None);
}

#[test]
fn descendant_chain_needs_ancestors_in_order() {
    let styled = styled(
        r#"
            <div class="outer">
                <section>
                    <p id="inside">inside</p>
                </section>
            </div>
            <section>
                <div class="outer">
                    <p id="reversed">reversed</p>
                </div>
            </section>
            "#,
        r#".outer section p { color: green; }"#,
    );
    let inside = find_element_by_id(&styled, "inside").expect("inside paragraph should exist");
    let reversed = find_element_by_id(&styled, "reversed").expect("reversed paragraph should exist");

    assert_eq!(inside.value("color").map(|value| value.as_str()), Some("green"));
    assert_eq!(reversed.value("color").map(|value| value.as_str()), None);
}
