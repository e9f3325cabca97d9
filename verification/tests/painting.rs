use browser_engine::css::{Color, Parser as CssParser};
use browser_engine::engine::{render, RenderError, MAX_VIEWPORT};
use browser_engine::html::{HtmlError, Parser as HtmlParser};
use browser_engine::css::CssError;
use browser_engine::layout::{layout_tree, Dimensions, LayoutError, Rect};
use browser_engine::painting::{
    build_display_list, color_to_u32, trim, Canvas, DisplayCommand, DisplayList,
};
use browser_engine::style::style_tree;

const WHITE: Color = Color { r: 255, g: 255, b: 255, a: 255 };
const RED: Color = Color { r: 255, g: 0, b: 0, a: 255 };
const BLACK: Color = Color { r: 0, g: 0, b: 0, a: 255 };
const BLUE: Color = Color { r: 0, g: 0, b: 255, a: 255 };

fn rect(x: i64, y: i64, width: i64, height: i64) -> Rect {
    Rect { x: x * 1000, y: y * 1000, width: width * 1000, height: height * 1000 }
}

fn commands(html: &str, css: &str, width: i64) -> DisplayList {
    let root = HtmlParser::parse(html.to_string()).expect("the document parses");
    let sheet = CssParser::parse(css.to_string()).expect("the style sheet parses");
    let styled = style_tree(&root, &sheet);
    let mut viewport = Dimensions::default();
    viewport.content.width = width * 1000;
    let layout = layout_tree(&styled, viewport).expect("fits");
    build_display_list(&layout)
}

fn painted(canvas: &Canvas) -> Vec<(usize, usize)> {
    let mut v = Vec::new();
    for y in 0..canvas.height {
        for x in 0..canvas.width {
            if canvas.get(x, y) != WHITE {
                v.push((x, y));
            }
        }
    }
    v
}

#[test]
fn red_box_with_text() {
    let page = render(
        "<div class=\"box\">hi</div>",
        "div { width: 100px; height: 50px; background: #ff0000; }",
        200,
        200,
    )
    .expect("renders");
    assert_eq!(
        page.display_list,
        vec![
            DisplayCommand::SolidColor(RED, rect(0, 0, 100, 50)),
            DisplayCommand::Text("hi".to_string(), rect(0, 0, 100, 14), BLACK),
        ]
    );
    let canvas = &page.canvas;
    assert_eq!((canvas.width, canvas.height), (200, 200));
    assert_eq!(canvas.pixels.len(), 200 * 200);
    for y in 0..200 {
        for x in 0..200 {
            let c = canvas.get(x, y);
            if x < 100 && y < 50 {
                assert!(c == RED || (c == BLACK && x < 16 && y < 12), "({}, {})", x, y);
            } else {
                assert_eq!(c, WHITE, "({}, {})", x, y);
            }
        }
    }
    assert_eq!(canvas.get(50, 25), RED);
    assert_eq!(canvas.get(99, 49), RED);
    assert_eq!(canvas.get(0, 0), BLACK);
}

#[test]
fn background_then_borders_then_children() {
    let list = commands(
        "<div><p></p></div>",
        "div { background: #ff0000; border-color: #000000; border-width: 2px; padding: 1px; } \
         p { background: #0000ff; height: 10px; }",
        100,
    );
    assert_eq!(
        list,
        vec![
            DisplayCommand::SolidColor(RED, rect(0, 0, 100, 16)),
            DisplayCommand::SolidColor(BLACK, rect(0, 0, 2, 16)),
            DisplayCommand::SolidColor(BLACK, rect(98, 0, 2, 16)),
            DisplayCommand::SolidColor(BLACK, rect(0, 0, 100, 2)),
            DisplayCommand::SolidColor(BLACK, rect(0, 14, 100, 2)),
            DisplayCommand::SolidColor(BLUE, rect(3, 3, 94, 10)),
        ]
    );
}

#[test]
fn siblings_are_painted_in_order() {
    let list = commands(
        "<div><p class=\"a\"><b>x</b></p><p class=\"b\"></p></div>",
        ".a { background: #ff0000; } .b { background: #0000ff; height: 5px; } b { color: #0000ff; }",
        100,
    );
    assert_eq!(
        list,
        vec![
            DisplayCommand::SolidColor(RED, rect(0, 0, 100, 14)),
            DisplayCommand::Text("x".to_string(), rect(0, 0, 100, 14), BLUE),
            DisplayCommand::SolidColor(BLUE, rect(0, 14, 100, 5)),
        ]
    );
}

#[test]
fn text_is_trimmed_and_blank_text_is_left_out() {
    let list = commands("<div>  a b  <p> </p></div>", "", 100);
    assert_eq!(list, vec![DisplayCommand::Text("a b".to_string(), rect(0, 0, 100, 14), BLACK)]);
    assert_eq!(trim(" \t x y \n"), "x y");
    assert_eq!(trim("   "), "");
    assert_eq!(trim(""), "");
    assert_eq!(trim("x"), "x");
}

#[test]
fn text_without_area_is_left_out() {
    let list = commands("<div>a</div>", "div { width: 0px; }", 100);
    assert!(list.is_empty());
}

#[test]
fn text_color_is_inherited() {
    let list = commands("<a>x</a>", "a { display: block; }", 100);
    assert_eq!(
        list,
        vec![DisplayCommand::Text(
            "x".to_string(),
            rect(0, 0, 100, 14),
            Color { r: 0, g: 0, b: 0xEE, a: 255 }
        )]
    );
}

#[test]
fn new_canvas_is_white() {
    let canvas = Canvas::new(3, 2);
    assert_eq!(canvas.pixels, vec![WHITE; 6]);
    assert_eq!((canvas.width, canvas.height), (3, 2));
    let canvas = Canvas::new(0, 5);
    assert!(canvas.pixels.is_empty());
}

#[test]
fn solid_color_fills_whole_pixels() {
    let mut canvas = Canvas::new(10, 10);
    canvas.paint_item(&DisplayCommand::SolidColor(
        RED,
        Rect { x: 1_500, y: 2_000, width: 3_000, height: 2_999 },
    ));
    let expected: Vec<(usize, usize)> =
        vec![(1, 2), (2, 2), (3, 2), (1, 3), (2, 3), (3, 3)];
    assert_eq!(painted(&canvas), expected);
    assert_eq!(canvas.get(1, 2), RED);
}

#[test]
fn solid_color_is_held_to_the_canvas() {
    let mut canvas = Canvas::new(4, 3);
    canvas.paint_item(&DisplayCommand::SolidColor(RED, rect(-5, -5, 7, 100)));
    assert_eq!(painted(&canvas), vec![(0, 0), (1, 0), (0, 1), (1, 1), (0, 2), (1, 2)]);
    assert_eq!(canvas.pixels.len(), 12);
    let mut canvas = Canvas::new(4, 3);
    canvas.paint_item(&DisplayCommand::SolidColor(RED, rect(2, 1, 100, 100)));
    assert_eq!(painted(&canvas), vec![(2, 1), (3, 1), (2, 2), (3, 2)]);
    let mut canvas = Canvas::new(4, 3);
    canvas.paint_item(&DisplayCommand::SolidColor(RED, rect(10, 10, 5, 5)));
    assert!(painted(&canvas).is_empty());
    canvas.paint_item(&DisplayCommand::SolidColor(
        RED,
        Rect { x: i64::MAX, y: i64::MIN, width: i64::MAX, height: i64::MAX },
    ));
    assert!(painted(&canvas).is_empty());
    canvas.paint_item(&DisplayCommand::SolidColor(RED, rect(3, 2, -2, -1)));
    assert!(painted(&canvas).is_empty());
}

#[test]
fn later_command_paints_over_earlier_one() {
    let mut canvas = Canvas::new(3, 1);
    let list = vec![
        DisplayCommand::SolidColor(RED, rect(0, 0, 2, 1)),
        DisplayCommand::SolidColor(BLUE, rect(1, 0, 2, 1)),
    ];
    canvas.paint(&list);
    assert_eq!(canvas.pixels, vec![RED, BLUE, BLUE]);
}

fn glyph_pixels(x0: usize, y0: usize, x1: usize, y1: usize) -> Vec<(usize, usize)> {
    let mut v = Vec::new();
    for y in y0..y1 {
        for x in x0..x1 {
            if x == x0 || x == x1 - 1 || y == y0 || y == y1 - 1 || (x + y) % 3 == 0 {
                v.push((x, y));
            }
        }
    }
    v
}

fn sorted(mut v: Vec<(usize, usize)>) -> Vec<(usize, usize)> {
    v.sort_by_key(|&(x, y)| (y, x));
    v
}

#[test]
fn character_is_a_cell_of_8_by_12_with_a_pattern() {
    let mut canvas = Canvas::new(40, 40);
    canvas.paint_item(&DisplayCommand::Text("x".to_string(), rect(2, 3, 30, 30), BLACK));
    assert_eq!(painted(&canvas), glyph_pixels(2, 3, 10, 15));
    assert_eq!(canvas.get(2, 3), BLACK);
    assert_eq!(canvas.get(3, 4), WHITE);
    assert_eq!(canvas.get(4, 5), BLACK);
}

#[test]
fn characters_advance_by_8_and_spaces_paint_nothing() {
    let mut canvas = Canvas::new(40, 40);
    canvas.paint_item(&DisplayCommand::Text("a b".to_string(), rect(0, 0, 40, 40), BLACK));
    let mut expected = glyph_pixels(0, 0, 8, 12);
    expected.extend(glyph_pixels(16, 0, 24, 12));
    assert_eq!(painted(&canvas), sorted(expected));
}

#[test]
fn text_wraps_at_the_right_edge_and_advances_14() {
    let mut canvas = Canvas::new(40, 40);
    canvas.paint_item(&DisplayCommand::Text("abc".to_string(), rect(0, 0, 17, 40), BLACK));
    let mut expected = glyph_pixels(0, 0, 8, 12);
    expected.extend(glyph_pixels(8, 0, 16, 12));
    expected.extend(glyph_pixels(0, 14, 8, 26));
    assert_eq!(painted(&canvas), sorted(expected));
}

#[test]
fn line_feed_starts_a_new_line() {
    let mut canvas = Canvas::new(40, 40);
    canvas.paint_item(&DisplayCommand::Text("a\nb".to_string(), rect(1, 0, 39, 40), BLACK));
    let mut expected = glyph_pixels(1, 0, 9, 12);
    expected.extend(glyph_pixels(1, 14, 9, 26));
    assert_eq!(painted(&canvas), sorted(expected));
}

#[test]
fn text_stops_at_the_bottom() {
    let mut canvas = Canvas::new(40, 40);
    canvas.paint_item(&DisplayCommand::Text("abcdef".to_string(), rect(0, 0, 8, 27), BLACK));
    let mut expected = glyph_pixels(0, 0, 8, 12);
    expected.extend(glyph_pixels(0, 14, 8, 26));
    assert_eq!(painted(&canvas), sorted(expected));
}

#[test]
fn first_line_is_cut_at_the_bottom_of_the_frame() {
    let mut canvas = Canvas::new(40, 40);
    canvas.paint_item(&DisplayCommand::Text("a".to_string(), rect(0, 0, 8, 6), BLACK));
    assert_eq!(painted(&canvas), glyph_pixels(0, 0, 8, 6));
}

#[test]
fn character_that_does_not_fit_the_width_goes_to_the_next_line() {
    let mut canvas = Canvas::new(40, 40);
    canvas.paint_item(&DisplayCommand::Text("a".to_string(), rect(0, 0, 5, 40), BLACK));
    assert_eq!(painted(&canvas), glyph_pixels(0, 14, 5, 26));
    let mut canvas = Canvas::new(40, 40);
    canvas.paint_item(&DisplayCommand::Text("a".to_string(), rect(0, 0, 5, 25), BLACK));
    assert!(painted(&canvas).is_empty());
}

#[test]
fn line_feeds_are_passed_below_the_bottom() {
    let mut canvas = Canvas::new(40, 40);
    canvas.paint_item(&DisplayCommand::Text("\n\n\na".to_string(), rect(0, 0, 40, 20), BLACK));
    assert!(painted(&canvas).is_empty());
    let mut canvas = Canvas::new(40, 40);
    canvas.paint_item(&DisplayCommand::Text("\na".to_string(), rect(0, 0, 40, 20), BLACK));
    assert_eq!(painted(&canvas), glyph_pixels(0, 14, 8, 20));
}

#[test]
fn text_is_held_to_the_canvas() {
    let mut canvas = Canvas::new(12, 10);
    canvas.paint_item(&DisplayCommand::Text("ab".to_string(), rect(-4, -4, 100, 100), BLACK));
    assert_eq!(painted(&canvas), glyph_pixels(0, 0, 8, 10));
    assert_eq!(canvas.pixels.len(), 120);
}

#[test]
fn buffer_holds_rgb_numbers() {
    let mut canvas = Canvas::new(2, 1);
    canvas.paint_item(&DisplayCommand::SolidColor(
        Color { r: 0x12, g: 0x34, b: 0x56, a: 0 },
        rect(1, 0, 1, 1),
    ));
    assert_eq!(canvas.to_rgb_buffer(), vec![0xffffff, 0x123456]);
    assert_eq!(color_to_u32(&Color { r: 1, g: 2, b: 3, a: 4 }), 0x010203);
}

#[test]
fn ppm_lists_the_channels_in_decimal() {
    let mut canvas = Canvas::new(2, 2);
    canvas.paint_item(&DisplayCommand::SolidColor(
        Color { r: 0, g: 9, b: 120, a: 255 },
        rect(0, 1, 1, 1),
    ));
    assert_eq!(
        canvas.to_ppm(),
        "P3\n2 2\n255\n255 255 255 255 255 255 0 9 120 255 255 255"
    );
    assert_eq!(Canvas::new(0, 0).to_ppm(), "P3\n0 0\n255\n");
    assert_eq!(Canvas::new(10, 0).to_ppm(), "P3\n10 0\n255\n");
}

#[test]
fn render_reports_each_failure() {
    assert_eq!(render("<div", "", 10, 10).err(), Some(RenderError::Html(HtmlError::UnexpectedEof)));
    assert_eq!(
        render("<div></div>", "div {", 10, 10).err(),
        Some(RenderError::Css(CssError::UnexpectedEof))
    );
    assert_eq!(render("<span></span>", "", 10, 10).err(), Some(RenderError::RootNotBlock));
    assert_eq!(
        render("<div></div>", "div { display: none; }", 10, 10).err(),
        Some(RenderError::RootNotBlock)
    );
    assert_eq!(render("text", "", 10, 10).err(), Some(RenderError::RootNotBlock));
    assert_eq!(
        render("<div></div>", "div { height: 2000000000000000px; }", 10, 10).err(),
        Some(RenderError::Layout(LayoutError::OutOfRange))
    );
    assert_eq!(
        render("<div></div>", "", MAX_VIEWPORT + 1, 1).err(),
        Some(RenderError::ViewportTooLarge)
    );
    assert_eq!(
        render("<div></div>", "", 1, MAX_VIEWPORT + 1).err(),
        Some(RenderError::ViewportTooLarge)
    );
    assert_eq!(render("<div", "div {", MAX_VIEWPORT + 1, 1).err(), Some(RenderError::ViewportTooLarge));
    assert_eq!(render("<div", "div {", 1, 1).err(), Some(RenderError::Html(HtmlError::UnexpectedEof)));
}

#[test]
fn render_of_an_empty_page_is_white() {
    let page = render("", "", 4, 3).expect("renders");
    assert!(page.display_list.is_empty());
    assert_eq!(page.canvas.pixels, vec![WHITE; 12]);
}
