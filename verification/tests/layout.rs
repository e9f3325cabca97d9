use browser_engine::css::{Parser as CssParser, Stylesheet};
use browser_engine::dom::Node;
use browser_engine::html::Parser as HtmlParser;
use browser_engine::layout::{
    build_layout_tree, layout_tree, BoxType, Dimensions, EdgeSizes, LayoutBox, LayoutError, Rect,
    LINE_HEIGHT, MAX_COORDINATE,
};
use browser_engine::style::style_tree;

fn dom(source: &str) -> Node {
    HtmlParser::parse(source.to_string()).expect("the document parses")
}

fn sheet(source: &str) -> Stylesheet {
    CssParser::parse(source.to_string()).expect("the style sheet parses")
}

fn viewport(width: i64, height: i64) -> Dimensions {
    let mut d = Dimensions::default();
    d.content.width = width * 1000;
    d.content.height = height * 1000;
    d
}

fn px(n: i64) -> i64 {
    n * 1000
}

fn outer_width(d: &Dimensions) -> i64 {
    d.margin.left + d.border.left + d.padding.left + d.content.width + d.padding.right
        + d.border.right + d.margin.right
}

fn check_widths(b: &LayoutBox, containing_width: i64) {
    assert_eq!(outer_width(&b.dimensions), containing_width);
    for child in &b.children {
        check_widths(child, b.dimensions.content.width);
    }
}

fn kind(b: &LayoutBox) -> &'static str {
    match b.box_type {
        BoxType::BlockNode(_) => "block",
        BoxType::InlineNode(_) => "inline",
        BoxType::AnonymousBlock => "anonymous",
    }
}

#[test]
fn default_dimensions_are_zero() {
    let d = Dimensions::default();
    assert_eq!(d.content, Rect { x: 0, y: 0, width: 0, height: 0 });
    assert_eq!(d.padding, EdgeSizes { left: 0, right: 0, top: 0, bottom: 0 });
    assert_eq!(d.border, EdgeSizes::default());
    assert_eq!(d.margin, EdgeSizes::default());
    assert_eq!(Rect::default(), d.content);
}

#[test]
fn boxes_nest_content_padding_border_margin() {
    let d = Dimensions {
        content: Rect { x: 100, y: 200, width: 50, height: 60 },
        padding: EdgeSizes { left: 1, right: 2, top: 3, bottom: 4 },
        border: EdgeSizes { left: 10, right: 20, top: 30, bottom: 40 },
        margin: EdgeSizes { left: 100, right: 200, top: 300, bottom: 400 },
    };
    assert_eq!(d.padding_box(), Rect { x: 99, y: 197, width: 53, height: 67 });
    assert_eq!(d.border_box(), Rect { x: 89, y: 167, width: 83, height: 137 });
    assert_eq!(d.margin_box(), Rect { x: -11, y: -133, width: 383, height: 837 });
}

#[test]
fn inline_children_share_one_anonymous_block() {
    let root = dom("<p><span>a</span><span>b</span></p>");
    let css = sheet("p { display: block; } span { display: inline; }");
    let styled = style_tree(&root, &css);
    let tree = build_layout_tree(&styled);
    assert_eq!(kind(&tree), "block");
    assert_eq!(tree.children.len(), 1);
    let anonymous = &tree.children[0];
    assert_eq!(kind(anonymous), "anonymous");
    assert_eq!(anonymous.children.len(), 2);
    assert_eq!(kind(&anonymous.children[0]), "inline");
    assert_eq!(kind(&anonymous.children[1]), "inline");
    match (&anonymous.children[0].box_type, &anonymous.children[1].box_type) {
        (BoxType::InlineNode(a), BoxType::InlineNode(b)) => {
            assert!(std::ptr::eq(*a, &styled.children[0]));
            assert!(std::ptr::eq(*b, &styled.children[1]));
        }
        _ => panic!("expected two inline boxes"),
    }
}

#[test]
fn block_child_closes_the_anonymous_block() {
    let root = dom("<div><span>a</span><b>b</b><p>c</p><i>d</i><p>e</p></div>");
    let css = sheet("");
    let styled = style_tree(&root, &css);
    let tree = build_layout_tree(&styled);
    let kinds: Vec<&str> = tree.children.iter().map(kind).collect();
    assert_eq!(kinds, vec!["anonymous", "block", "anonymous", "block"]);
    assert_eq!(tree.children[0].children.len(), 2);
    assert_eq!(tree.children[2].children.len(), 1);
}

#[test]
fn display_none_leaves_the_subtree_out() {
    let root = dom("<div><p class=\"gone\"><b>x</b></p><p>y</p></div>");
    let css = sheet(".gone { display: none; }");
    let styled = style_tree(&root, &css);
    let tree = build_layout_tree(&styled);
    assert_eq!(tree.children.len(), 1);
    assert_eq!(kind(&tree.children[0]), "block");
}

#[test]
fn inline_parent_takes_children_as_they_are() {
    let root = dom("<div><span><b>x</b><p>y</p></span></div>");
    let css = sheet("");
    let styled = style_tree(&root, &css);
    let tree = build_layout_tree(&styled);
    let span = &tree.children[0].children[0];
    assert_eq!(kind(span), "inline");
    let kinds: Vec<&str> = span.children.iter().map(kind).collect();
    assert_eq!(kinds, vec!["inline", "block"]);
}

#[test]
fn block_with_width_gives_the_rest_to_the_right_margin() {
    let root = dom("<div></div>");
    let css = sheet("div { width: 100px; height: 50px; }");
    let styled = style_tree(&root, &css);
    let b = layout_tree(&styled, viewport(200, 200)).expect("fits");
    assert_eq!(b.dimensions.content, Rect { x: 0, y: 0, width: px(100), height: px(50) });
    assert_eq!(b.dimensions.margin, EdgeSizes { left: 0, right: px(100), top: 0, bottom: 0 });
    check_widths(&b, px(200));
}

#[test]
fn auto_width_takes_the_rest() {
    let root = dom("<div></div>");
    let css = sheet("div { margin: 10px; padding: 5px; border-width: 1px; }");
    let styled = style_tree(&root, &css);
    let b = layout_tree(&styled, viewport(200, 200)).expect("fits");
    assert_eq!(b.dimensions.content.width, px(200 - 2 * 16));
    assert_eq!(b.dimensions.content.x, px(16));
    assert_eq!(b.dimensions.content.y, px(16));
    assert_eq!(b.dimensions.padding, EdgeSizes { left: px(5), right: px(5), top: px(5), bottom: px(5) });
    assert_eq!(b.dimensions.border, EdgeSizes { left: px(1), right: px(1), top: px(1), bottom: px(1) });
    assert_eq!(b.dimensions.margin, EdgeSizes { left: px(10), right: px(10), top: px(10), bottom: px(10) });
    check_widths(&b, px(200));
}

#[test]
fn narrower_edge_beats_the_shorthand() {
    let root = dom("<div></div>");
    let css = sheet(
        "div { padding: 5px; padding-left: 1px; padding-top: 2px; border-width: 3px; \
         border-right-width: 4px; border-bottom-width: 6px; margin: 7px; margin-bottom: 8px; }",
    );
    let styled = style_tree(&root, &css);
    let b = layout_tree(&styled, viewport(100, 100)).expect("fits");
    assert_eq!(b.dimensions.padding, EdgeSizes { left: px(1), right: px(5), top: px(2), bottom: px(5) });
    assert_eq!(b.dimensions.border, EdgeSizes { left: px(3), right: px(4), top: px(3), bottom: px(6) });
    assert_eq!(b.dimensions.margin, EdgeSizes { left: px(7), right: px(7), top: px(7), bottom: px(8) });
    check_widths(&b, px(100));
}

#[test]
fn auto_margins_center_a_block() {
    let root = dom("<div></div>");
    let css = sheet("div { width: 100px; margin-left: auto; margin-right: auto; }");
    let styled = style_tree(&root, &css);
    let b = layout_tree(&styled, viewport(300, 100)).expect("fits");
    assert_eq!(b.dimensions.margin.left, px(100));
    assert_eq!(b.dimensions.margin.right, px(100));
    assert_eq!(b.dimensions.content.x, px(100));
    check_widths(&b, px(300));
}

#[test]
fn auto_margins_share_an_odd_underflow() {
    let root = dom("<div></div>");
    let css = sheet("div { width: 100px; margin: auto; }");
    let styled = style_tree(&root, &css);
    let mut frame = Dimensions::default();
    frame.content.width = 100_001;
    let b = layout_tree(&styled, frame).expect("fits");
    assert_eq!(b.dimensions.margin.left, 0);
    assert_eq!(b.dimensions.margin.right, 1);
    check_widths(&b, 100_001);
}

#[test]
fn one_auto_margin_takes_the_underflow() {
    let root = dom("<div></div>");
    let css = sheet("div { width: 100px; margin-left: auto; margin-right: 20px; }");
    let styled = style_tree(&root, &css);
    let b = layout_tree(&styled, viewport(300, 100)).expect("fits");
    assert_eq!(b.dimensions.margin.left, px(180));
    assert_eq!(b.dimensions.margin.right, px(20));
    let css = sheet("div { width: 100px; margin-right: auto; margin-left: 20px; }");
    let styled = style_tree(&root, &css);
    let b = layout_tree(&styled, viewport(300, 100)).expect("fits");
    assert_eq!(b.dimensions.margin.left, px(20));
    assert_eq!(b.dimensions.margin.right, px(180));
    check_widths(&b, px(300));
}

#[test]
fn too_wide_block_overflows_into_the_right_margin() {
    let root = dom("<div></div>");
    let css = sheet("div { width: 300px; margin-left: auto; margin-right: auto; }");
    let styled = style_tree(&root, &css);
    let b = layout_tree(&styled, viewport(200, 100)).expect("fits");
    assert_eq!(b.dimensions.content.width, px(300));
    assert_eq!(b.dimensions.margin.left, 0);
    assert_eq!(b.dimensions.margin.right, px(-100));
    check_widths(&b, px(200));
}

#[test]
fn auto_width_is_never_negative() {
    let root = dom("<div></div>");
    let css = sheet("div { padding-left: 150px; margin-right: 100px; }");
    let styled = style_tree(&root, &css);
    let b = layout_tree(&styled, viewport(200, 100)).expect("fits");
    assert_eq!(b.dimensions.content.width, 0);
    assert_eq!(b.dimensions.margin.right, px(100 - 50));
    check_widths(&b, px(200));
}

#[test]
fn children_stack_and_make_the_height() {
    let root = dom("<div><p></p><p></p><p></p></div>");
    let css = sheet("p { height: 10px; margin: 2px; padding: 1px; border-width: 1px; }");
    let styled = style_tree(&root, &css);
    let b = layout_tree(&styled, viewport(100, 100)).expect("fits");
    assert_eq!(b.children.len(), 3);
    for (i, child) in b.children.iter().enumerate() {
        assert_eq!(child.dimensions.content.height, px(10));
        assert_eq!(child.dimensions.margin_box().height, px(18));
        assert_eq!(child.dimensions.margin_box().y, px(18) * i as i64);
        assert_eq!(child.dimensions.content.y, px(18) * i as i64 + px(4));
        assert_eq!(child.dimensions.content.x, px(4));
    }
    assert_eq!(b.dimensions.content.height, px(54));
    check_widths(&b, px(100));
}

#[test]
fn explicit_height_overrides_the_children() {
    let root = dom("<div><p></p></div>");
    let css = sheet("div { height: 7px; } p { height: 10px; }");
    let styled = style_tree(&root, &css);
    let b = layout_tree(&styled, viewport(100, 100)).expect("fits");
    assert_eq!(b.dimensions.content.height, px(7));
    assert_eq!(b.children[0].dimensions.content.height, px(10));
}

#[test]
fn viewport_height_is_no_constraint() {
    let root = dom("<div><p></p></div>");
    let css = sheet("p { height: 500px; }");
    let styled = style_tree(&root, &css);
    let b = layout_tree(&styled, viewport(100, 100)).expect("fits");
    assert_eq!(b.dimensions.content.y, 0);
    assert_eq!(b.dimensions.content.height, px(500));
}

#[test]
fn viewport_position_moves_the_page() {
    let root = dom("<div><p></p></div>");
    let css = sheet("p { height: 5px; }");
    let styled = style_tree(&root, &css);
    let mut frame = viewport(100, 100);
    frame.content.x = px(30);
    frame.content.y = px(40);
    let b = layout_tree(&styled, frame).expect("fits");
    assert_eq!(b.dimensions.content.x, px(30));
    assert_eq!(b.dimensions.content.y, px(40));
    assert_eq!(b.children[0].dimensions.content.x, px(30));
    assert_eq!(b.children[0].dimensions.content.y, px(40));
}

#[test]
fn text_takes_one_line_in_its_anonymous_block() {
    let root = dom("<div>hi</div>");
    let css = sheet("div { width: 100px; }");
    let styled = style_tree(&root, &css);
    let b = layout_tree(&styled, viewport(200, 200)).expect("fits");
    let anonymous = &b.children[0];
    assert_eq!(kind(anonymous), "anonymous");
    assert_eq!(anonymous.dimensions.content, Rect { x: 0, y: 0, width: px(100), height: LINE_HEIGHT });
    assert_eq!(anonymous.dimensions.margin, EdgeSizes::default());
    let text = &anonymous.children[0];
    assert_eq!(text.dimensions.content, Rect { x: 0, y: 0, width: px(100), height: LINE_HEIGHT });
    assert_eq!(b.dimensions.content.height, LINE_HEIGHT);
    check_widths(&b, px(200));
}

#[test]
fn blank_text_takes_no_height() {
    let root = dom("<div><span> </span></div>");
    let css = sheet("");
    let styled = style_tree(&root, &css);
    let b = layout_tree(&styled, viewport(200, 200)).expect("fits");
    assert_eq!(b.dimensions.content.height, 0);
}

#[test]
fn inline_boxes_stack_below_each_other() {
    let root = dom("<p><span>a</span><span>b</span></p>");
    let css = sheet("p { padding: 3px; }");
    let styled = style_tree(&root, &css);
    let b = layout_tree(&styled, viewport(200, 200)).expect("fits");
    let anonymous = &b.children[0];
    assert_eq!(anonymous.dimensions.content.y, px(3));
    assert_eq!(anonymous.children[0].dimensions.content.y, px(3));
    assert_eq!(anonymous.children[1].dimensions.content.y, px(3) + LINE_HEIGHT);
    assert_eq!(anonymous.children[1].children[0].dimensions.content.y, px(3) + LINE_HEIGHT);
    assert_eq!(anonymous.dimensions.content.height, 2 * LINE_HEIGHT);
    assert_eq!(b.dimensions.content.height, 2 * LINE_HEIGHT);
    check_widths(&b, px(200));
}

#[test]
fn coordinate_beyond_the_range_is_an_error() {
    let root = dom("<div><p></p></div>");
    let css = sheet("p { height: 1000000000000001px; }");
    let styled = style_tree(&root, &css);
    assert_eq!(layout_tree(&styled, viewport(100, 100)).err(), Some(LayoutError::OutOfRange));
    let css = sheet("p { height: 1000000000000000px; }");
    let styled = style_tree(&root, &css);
    let b = layout_tree(&styled, viewport(100, 100)).expect("fits");
    assert_eq!(b.dimensions.content.height, MAX_COORDINATE);
}

#[test]
fn sum_beyond_the_range_is_an_error() {
    let root = dom("<div><p></p><p></p></div>");
    let css = sheet("p { height: 600000000000000px; }");
    let styled = style_tree(&root, &css);
    assert_eq!(layout_tree(&styled, viewport(100, 100)).err(), Some(LayoutError::OutOfRange));
}
