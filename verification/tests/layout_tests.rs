use rust_web_browser_engineering::css::{Parser, Stylesheet};
use rust_web_browser_engineering::dom::NodeType;
use rust_web_browser_engineering::html::parse;
use rust_web_browser_engineering::layout::{
    align_items, build_layout_tree, child_align_items, clear_applies_to_float, collapse_whitespace,
    collect_text_nodes, creates_stacking_context, flex_direction, flex_wrap, input_label,
    is_flex_basis_token, justify_content, node_fixed_context, paints_in_positioned_layer, parse_4len,
    parse_gap_pair, skips_display_subtree, specified_inset, stacking_context_level,
    text_decoration_none, AlignItems, BoxType, FlexDirection, FlexWrap, InsetEdge, JustifyContent,
    LayoutBox,
};
use rust_web_browser_engineering::style::{style_tree, Clear, Display, Float, FontSizer, Position, StyledNode};

/// Font sizing that leaves every size at the initial one.
struct FixedSizes;

impl FontSizer for FixedSizes {
    type Metrics = ();

    fn initial(&self) {}

    fn size(
        &self,
        _parent: (),
        _font_size: Option<&String>,
        _line_height: Option<&String>,
        _is_root: bool,
    ) -> ((), String, Option<String>) {
        ((), "16px".to_string(), None)
    }
}

fn styled_tree(input: &str) -> StyledNode<()> {
    let dom = parse(input.to_string());
    style_tree(dom, &Stylesheet::default(), &FixedSizes)
}

fn styled_tree_with_css(input: &str, css: &str) -> StyledNode<()> {
    let dom = parse(input.to_string());
    let stylesheet = Parser::new(css.to_string()).parse_stylesheet();
    style_tree(dom, &stylesheet, &FixedSizes)
}

fn attr_of<'s>(node: &LayoutBox<'s, ()>, pick: fn(&'s StyledNode<()>) -> Option<&'s str>) -> Option<&'s str> {
    node.get_style_node().and_then(pick)
}

fn tag_name(sn: &StyledNode<()>) -> Option<&str> {
    match &sn.node.node_type {
        NodeType::Element(ed) => Some(ed.tag_name.as_str()),
        _ => None,
    }
}

fn id_value(sn: &StyledNode<()>) -> Option<&str> {
    match &sn.node.node_type {
        NodeType::Element(ed) => ed.attributes.get("id").map(|s| s.as_str()),
        _ => None,
    }
}

fn is_element(node: &LayoutBox<'_, ()>, tag: &str) -> bool {
    attr_of(node, tag_name) == Some(tag)
}

fn find_element<'tree, 'style>(
    node: &'tree LayoutBox<'style, ()>,
    tag: &str,
) -> Option<&'tree LayoutBox<'style, ()>> {
    if is_element(node, tag) {
        return Some(node);
    }
    node.children.iter().find_map(|child| find_element(child, tag))
}

fn find_element_by_id<'tree, 'style>(
    node: &'tree LayoutBox<'style, ()>,
    id: &str,
) -> Option<&'tree LayoutBox<'style, ()>> {
    if attr_of(node, id_value) == Some(id) {
        return Some(node);
    }
    node.children.iter().find_map(|child| find_element_by_id(child, id))
}

#[test]
fn inline_children_inside_inline_elements_are_not_anonymous_blocks() {
    let styled = styled_tree(r#"<p><a href="https://example.com">Learn <span>more</span> today</a></p>"#);
    let layout = build_layout_tree(&styled);
    let anchor = find_element(&layout, "a").unwrap();

    assert!(matches!(anchor.box_type, BoxType::InlineNode(_)));
    assert_eq!(anchor.children.len(), 3);
    assert!(anchor
        .children
        .iter()
        .all(|child| matches!(child.box_type, BoxType::InlineNode(_))));
    assert!(is_element(&anchor.children[1], "span"));
}

#[test]
fn flex_container_blockifies_inline_children() {
    let styled = styled_tree_with_css(
        r#"
            <div id="container">
                <span id="item"><b>hello</b> world</span>
            </div>
            "#,
        r#"
            #container {
                display: flex;
                width: 200px;
                margin: 0;
                padding: 0;
            }
            "#,
    );
    let layout = build_layout_tree(&styled);
    let item = find_element_by_id(&layout, "item").unwrap();

    assert!(matches!(item.box_type, BoxType::BlockNode(_)));
}

#[test]
fn inline_runs_of_a_block_share_one_anonymous_box() {
    let styled = styled_tree_with_css(
        r#"<div id="outer">one <b>two</b><p id="mid">three</p><i>four</i><span class="gone">x</span> five</div>"#,
        r#"div, p { display: block; } .gone { display: none; }"#,
    );
    let layout = build_layout_tree(&styled);
    let outer = find_element_by_id(&layout, "outer").unwrap();

    assert!(matches!(outer.box_type, BoxType::BlockNode(_)));
    assert_eq!(outer.children.len(), 3);
    assert!(matches!(outer.children[0].box_type, BoxType::Anonymous));
    assert_eq!(outer.children[0].children.len(), 2);
    assert!(is_element(&outer.children[1], "p"));
    assert!(matches!(outer.children[2].box_type, BoxType::Anonymous));
    assert_eq!(outer.children[2].children.len(), 2);
    assert!(is_element(&outer.children[2].children[0], "i"));
    assert!(outer.children[0].get_style_node().is_none());
}

#[test]
fn hidden_elements_generate_no_children() {
    let styled = styled_tree_with_css(
        r#"<div id="box"><p>text</p></div>"#,
        r#"div { display: none; } p { display: block; }"#,
    );
    let layout = build_layout_tree(&styled);
    assert!(find_element_by_id(&layout, "box").is_none());
    assert!(find_element(&layout, "p").is_none());
}

fn s(v: &str) -> Option<String> {
    Some(v.to_string())
}

#[test]
fn whitespace_runs_collapse_to_one_space() {
    assert_eq!(collapse_whitespace("  a \n\t b  c "), " a b c ");
    assert_eq!(collapse_whitespace("plain"), "plain");
    assert_eq!(collapse_whitespace(""), "");
}

#[test]
fn four_edge_shorthands_spread_like_margin() {
    assert_eq!(parse_4len(""), (None, None, None, None));
    assert_eq!(parse_4len(" 1px "), (s("1px"), s("1px"), s("1px"), s("1px")));
    assert_eq!(parse_4len("1px 2px"), (s("1px"), s("2px"), s("1px"), s("2px")));
    assert_eq!(parse_4len("1px 2px 3px"), (s("1px"), s("2px"), s("3px"), s("2px")));
    assert_eq!(parse_4len("1px 2px 3px 4px 5px"), (s("1px"), s("2px"), s("3px"), s("4px")));
    assert_eq!(parse_gap_pair(""), (None, None));
    assert_eq!(parse_gap_pair("4px"), (s("4px"), s("4px")));
    assert_eq!(parse_gap_pair("4px 8px 9px"), (s("4px"), s("8px")));
}

#[test]
fn insets_prefer_longhands_over_the_inset_shorthand() {
    let styled = styled_tree_with_css(
        r#"<div id="pos">x</div>"#,
        r#"#pos { position: absolute; inset: 1px 2px 3px; left: 9px; }"#,
    );
    let div = find_element_by_id(&build_layout_tree(&styled), "pos").unwrap().get_style_node().unwrap();
    assert_eq!(specified_inset(div, InsetEdge::Top), s("1px"));
    assert_eq!(specified_inset(div, InsetEdge::Right), s("2px"));
    assert_eq!(specified_inset(div, InsetEdge::Bottom), s("3px"));
    assert_eq!(specified_inset(div, InsetEdge::Left), s("9px"));
}

#[test]
fn flex_keywords_are_read_from_longhands_and_flex_flow() {
    let styled = styled_tree_with_css(
        r#"<div id="a">x</div><div id="b">y</div>"#,
        r#"#a { display: flex; flex-flow: column wrap; justify-content: space-between; align-items: center; }
           #b { flex-direction: row; flex-flow: column; flex-wrap: nowrap; align-self: end; justify-content: bogus; }"#,
    );
    let layout = build_layout_tree(&styled);
    let a = find_element_by_id(&layout, "a").unwrap().get_style_node();
    let b = find_element_by_id(&layout, "b").unwrap().get_style_node();
    assert!(flex_direction(a) == FlexDirection::Column);
    assert!(flex_wrap(a) == FlexWrap::Wrap);
    assert!(justify_content(a) == JustifyContent::SpaceBetween);
    assert!(align_items(a) == AlignItems::Center);
    assert!(flex_direction(b) == FlexDirection::Row);
    assert!(flex_wrap(b) == FlexWrap::NoWrap);
    assert!(justify_content(b) == JustifyContent::FlexStart);
    assert!(align_items(b) == AlignItems::Stretch);
    assert!(child_align_items(b, AlignItems::Center) == AlignItems::FlexEnd);
    assert!(child_align_items(a, AlignItems::Center) == AlignItems::Center);
    assert!(flex_direction(None::<&StyledNode<()>>) == FlexDirection::Row);
}

#[test]
fn flex_basis_tokens_are_zero_or_lengths() {
    assert!(is_flex_basis_token(" 0 "));
    assert!(is_flex_basis_token("10px"));
    assert!(is_flex_basis_token("50%"));
    assert!(is_flex_basis_token("2rem"));
    assert!(is_flex_basis_token("3vh"));
    assert!(!is_flex_basis_token("1"));
    assert!(!is_flex_basis_token("auto"));
}

#[test]
fn clear_applies_to_matching_float_sides() {
    assert!(clear_applies_to_float(Clear::Both, Float::Left));
    assert!(clear_applies_to_float(Clear::Both, Float::Right));
    assert!(clear_applies_to_float(Clear::Left, Float::Left));
    assert!(!clear_applies_to_float(Clear::Left, Float::Right));
    assert!(!clear_applies_to_float(Clear::NoClear, Float::Left));
    assert!(!clear_applies_to_float(Clear::Both, Float::NoFloat));
}

#[test]
fn text_of_a_subtree_skips_unpainted_elements() {
    let styled = styled_tree(
        r#"<div id="t">  Hello <script>ignored()</script><b> big </b>   <span></span>world </div>"#,
    );
    let layout = build_layout_tree(&styled);
    let div = find_element_by_id(&layout, "t").unwrap().get_style_node().unwrap();
    let mut out = String::new();
    collect_text_nodes(div, &mut out);
    assert_eq!(out, "Hello big world");
    let mut more = String::from("Say:");
    collect_text_nodes(div, &mut more);
    assert_eq!(more, "Say: Hello big world");
}

#[test]
fn input_labels_come_from_value_or_type() {
    let dom = parse(r#"<input value="Go"><input type="SUBMIT"><input type="reset"><input>"#.to_string());
    let mut inputs = Vec::new();
    fn walk<'a>(n: &'a rust_web_browser_engineering::dom::Node, out: &mut Vec<&'a rust_web_browser_engineering::dom::ElementData>) {
        if let NodeType::Element(ed) = &n.node_type {
            if ed.tag_name == "input" {
                out.push(ed);
            }
        }
        for c in &n.children {
            walk(c, out);
        }
    }
    walk(&dom, &mut inputs);
    let labels: Vec<String> = inputs.iter().map(|ed| input_label(ed)).collect();
    assert_eq!(labels, vec!["Go".to_string(), "Submit".to_string(), "Reset".to_string(), String::new()]);
}

#[test]
fn box_properties_and_layers_follow_the_styled_node() {
    let styled = styled_tree_with_css(
        r#"<div id="fix">a</div><div id="rel">b</div><div id="abs">c</div><div id="plain">d</div><a id="u" href="/x">e</a>"#,
        r#"#fix { position: fixed; float: left; }
           #rel { position: relative; z-index: 3; float: right; clear: both; display: inline-block; }
           #abs { position: absolute; z-index: auto; float: left; }
           #plain { display: flex; }
           #u { text-decoration: Underline NONE; }"#,
    );
    let layout = build_layout_tree(&styled);
    let fix = find_element_by_id(&layout, "fix").unwrap();
    let rel = find_element_by_id(&layout, "rel").unwrap();
    let abs = find_element_by_id(&layout, "abs").unwrap();
    let plain = find_element_by_id(&layout, "plain").unwrap();

    assert!(fix.node_position() == Position::Fixed);
    assert!(fix.node_float() == Float::NoFloat);
    assert!(creates_stacking_context(fix));
    assert!(node_fixed_context(fix, false));
    assert!(!node_fixed_context(plain, false));
    assert!(node_fixed_context(plain, true));

    assert!(rel.node_float() == Float::Right);
    assert!(rel.node_clear() == Clear::Both);
    assert!(rel.is_inline_block_box());
    assert!(creates_stacking_context(rel));
    assert_eq!(stacking_context_level(rel), 3);
    assert!(paints_in_positioned_layer(rel));

    assert!(abs.node_float() == Float::NoFloat);
    assert!(!creates_stacking_context(abs));
    assert_eq!(stacking_context_level(abs), 0);

    assert!(plain.is_flex_container());
    assert!(plain.node_display() == Some(Display::Flex));
    assert!(!paints_in_positioned_layer(plain));
    assert!(plain.node_position() == Position::Static);

    let link = find_element_by_id(&layout, "u").unwrap().get_style_node().unwrap();
    assert!(text_decoration_none(link));
    let anon = &plain.children[0];
    assert!(matches!(anon.box_type, BoxType::Anonymous));
    assert!(anon.node_display().is_none());
    assert!(anon.node_position() == Position::Static);
}

#[test]
fn unpainted_elements_are_skipped_in_the_display_list() {
    let styled = styled_tree_with_css(r#"<head><title>t</title></head><body><p id="p">x</p></body>"#, "head, title { display: block; }");
    let layout = build_layout_tree(&styled);
    let head = find_element(&layout, "head").unwrap();
    let p = find_element_by_id(&layout, "p").unwrap();
    assert!(skips_display_subtree(head));
    assert!(!skips_display_subtree(p));
}
