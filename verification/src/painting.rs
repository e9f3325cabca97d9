//! Painting: the display list of a layout tree, and the canvas that the
//! commands of a display list are painted on.

use vstd::prelude::*;
use crate::css::{Color, Value, ValueView};
use crate::dom::{NodeType, NodeTypeView};
use crate::layout::{BoxKind, BoxType, LayoutBox, LayoutView, Rect, RectView};
use crate::style::{black, StyledNode, StyledView};
use crate::text::{
    chars_of, decimal, is_whitespace, push_decimal, run_end, scan, string_of, CharClass,
};

verus! {

/// A drawing command. Rectangles are in thousandths of a pixel, from the top
/// left corner of the canvas.
#[derive(Debug, PartialEq, Eq)]
pub enum DisplayCommand {
    /// Fill the rectangle with the colour.
    SolidColor(Color, Rect),
    /// Write the text into the rectangle in the colour.
    Text(String, Rect, Color),
}

/// The commands that paint a page, in the order in which they are painted.
pub type DisplayList = Vec<DisplayCommand>;

/// A drawing command as a mathematical value.
pub ghost enum CommandView {
    SolidColor(Color, RectView),
    Text(Seq<char>, RectView, Color),
}

impl DisplayCommand {
    /// The command as a mathematical value.
    pub open spec fn view(&self) -> CommandView {
        match self {
            DisplayCommand::SolidColor(c, r) => CommandView::SolidColor(*c, r@),
            DisplayCommand::Text(t, r, c) => CommandView::Text(t@, r@, *c),
        }
    }
}

/// The views of a sequence of commands.
pub open spec fn commands_view(s: Seq<DisplayCommand>) -> Seq<CommandView> {
    Seq::new(s.len(), |i: int| s[i]@)
}

// ---------------------------------------------------------------------------
// The display list

/// The styled node of a box, if it has one.
pub open spec fn style_of(kind: BoxKind) -> Option<StyledView> {
    match kind {
        BoxKind::Block(s) => Some(s),
        BoxKind::Inline(s) => Some(s),
        BoxKind::Anonymous => None,
    }
}

/// The colour that the property `name` gives a box, if it gives one.
pub open spec fn color_of(kind: BoxKind, name: Seq<char>) -> Option<Color> {
    match style_of(kind) {
        Some(style) => match style.value(name) {
            Some(ValueView::Color(c)) => Some(c),
            _ => None,
        },
        None => None,
    }
}

/// The background of a box: its border box in the colour of `background`.
pub open spec fn background(b: LayoutView) -> Seq<CommandView> {
    match color_of(b.kind, "background"@) {
        Some(c) => seq![CommandView::SolidColor(c, b.dimensions.border_box())],
        None => Seq::empty(),
    }
}

/// The borders of a box: the left, right, top and bottom edge of its border
/// box, as thick as its borders, in the colour of `border-color`.
pub open spec fn borders(b: LayoutView) -> Seq<CommandView> {
    match color_of(b.kind, "border-color"@) {
        Some(c) => {
            let d = b.dimensions;
            let bb = d.border_box();
            seq![
                CommandView::SolidColor(
                    c,
                    RectView { x: bb.x, y: bb.y, width: d.border.left, height: bb.height },
                ),
                CommandView::SolidColor(
                    c,
                    RectView {
                        x: bb.x + bb.width - d.border.right,
                        y: bb.y,
                        width: d.border.right,
                        height: bb.height,
                    },
                ),
                CommandView::SolidColor(
                    c,
                    RectView { x: bb.x, y: bb.y, width: bb.width, height: d.border.top },
                ),
                CommandView::SolidColor(
                    c,
                    RectView {
                        x: bb.x,
                        y: bb.y + bb.height - d.border.bottom,
                        width: bb.width,
                        height: d.border.bottom,
                    },
                ),
            ]
        },
        None => Seq::empty(),
    }
}

/// Where the text ends when the white space at its end is left out.
pub open spec fn trimmed_end(text: Seq<char>) -> int
    decreases text.len(),
{
    if text.len() == 0 {
        0
    } else if is_whitespace(text.last()) {
        trimmed_end(text.drop_last())
    } else {
        text.len() as int
    }
}

/// The text without the white space at its start and at its end.
pub open spec fn trimmed(text: Seq<char>) -> Seq<char> {
    let start = run_end(text, 0, CharClass::Whitespace);
    let end = trimmed_end(text);
    if start < end {
        text.subrange(start, end)
    } else {
        Seq::empty()
    }
}

/// The text of a box: for the box of a text node whose trimmed text is not
/// empty and whose content rectangle has an area, the trimmed text in the
/// content rectangle, in the colour of `color`, or in black.
pub open spec fn text_command(b: LayoutView) -> Seq<CommandView> {
    match style_of(b.kind) {
        Some(style) => match style.node.node_type {
            NodeTypeView::Text(text) => if trimmed(text).len() > 0 && b.dimensions.content.width
                > 0 && b.dimensions.content.height > 0 {
                seq![
                    CommandView::Text(
                        trimmed(text),
                        b.dimensions.content,
                        match color_of(b.kind, "color"@) {
                            Some(c) => c,
                            None => black(),
                        },
                    ),
                ]
            } else {
                Seq::empty()
            },
            _ => Seq::empty(),
        },
        None => Seq::empty(),
    }
}

/// The commands of a box itself: background, then borders, then text.
pub open spec fn own_commands(b: LayoutView) -> Seq<CommandView> {
    background(b) + borders(b) + text_command(b)
}

/// The display lists of the first `n` of the boxes, one after the other.
pub open spec fn display_lists(boxes: Seq<LayoutView>, n: int) -> Seq<CommandView>
    decreases boxes, n,
{
    if n <= 0 || n > boxes.len() {
        Seq::empty()
    } else {
        display_lists(boxes, n - 1) + display_list(boxes[n - 1])
    }
}

/// The display list of a layout tree: the commands of the root, then the
/// display lists of its children in order.
pub open spec fn display_list(b: LayoutView) -> Seq<CommandView>
    decreases b, 0int,
{
    own_commands(b) + display_lists(b.children, b.children.len() as int)
}

/// Painting order: the display list of a box is its background, then its
/// borders, then its text, then the display lists of its children in order;
/// so what belongs to a box is painted before everything that belongs to the
/// boxes in it.
pub proof fn lemma_paint_order(b: LayoutView)
    ensures
        display_list(b) == background(b) + borders(b) + text_command(b) + display_lists(
            b.children,
            b.children.len() as int,
        ),
        forall|n: int|
            0 < n <= b.children.len() ==> #[trigger] display_lists(b.children, n) == display_lists(
                b.children,
                n - 1,
            ) + display_list(b.children[n - 1]),
{
}

/// Where the text ends when the white space at its end is left out.
fn trim_end(v: &Vec<char>) -> (end: usize)
    ensures
        end == trimmed_end(v@),
        end <= v.len(),
{
    let mut end: usize = v.len();
    assert(v@.take(end as int) =~= v@);
    while end > 0 && crate::text::char_is_whitespace(v[end - 1])
        invariant
            end <= v.len(),
            trimmed_end(v@.take(end as int)) == trimmed_end(v@),
        decreases end,
    {
        assert(v@.take(end as int).drop_last() =~= v@.take(end - 1));
        end = end - 1;
    }
    end
}

/// The text without the white space at its start and at its end.
pub fn trim(text: &str) -> (r: String)
    ensures
        r@ == trimmed(text@),
{
    let chars = chars_of(text);
    let start = scan(&chars, 0, CharClass::Whitespace);
    let end = trim_end(&chars);
    if start < end {
        string_of(&chars, start, end)
    } else {
        String::new()
    }
}

/// Builds the display list of a layout tree.
pub fn build_display_list(layout_root: &LayoutBox) -> (list: DisplayList)
    requires
        layout_root@.in_range(),
    ensures
        commands_view(list@) == display_list(layout_root@),
{
    let mut list: Vec<DisplayCommand> = Vec::new();
    assert(commands_view(list@) =~= Seq::<CommandView>::empty());
    render_layout_box(&mut list, layout_root);
    assert(Seq::<CommandView>::empty() + display_list(layout_root@) =~= display_list(
        layout_root@,
    ));
    list
}

/// Adds the display list of a box to the list.
fn render_layout_box(list: &mut DisplayList, layout_box: &LayoutBox)
    requires
        layout_box@.in_range(),
    ensures
        commands_view(final(list)@) == commands_view(old(list)@) + display_list(layout_box@),
    decreases layout_box,
{
    let ghost l0 = commands_view(list@);
    render_background(list, layout_box);
    render_borders(list, layout_box);
    render_text(list, layout_box);
    let ghost l1 = commands_view(list@);
    let ghost kids = layout_box@.children;
    assert(l1 =~= l0 + own_commands(layout_box@));
    assert(l1 + Seq::<CommandView>::empty() =~= l1);
    let mut i: usize = 0;
    while i < layout_box.children.len()
        invariant
            i <= layout_box.children.len(),
            kids == layout_box@.children,
            layout_box@.in_range(),
            commands_view(list@) == l1 + display_lists(kids, i as int),
        decreases layout_box.children.len() - i,
    {
        let ghost before = commands_view(list@);
        assert(layout_box.children@[i as int]@ == kids[i as int]);
        render_layout_box(list, &layout_box.children[i]);
        assert(l1 + (display_lists(kids, i as int) + display_list(kids[i as int])) =~= (l1
            + display_lists(kids, i as int)) + display_list(kids[i as int]));
        i = i + 1;
    }
    assert(l0 + (own_commands(layout_box@) + display_lists(kids, kids.len() as int)) =~= (l0
        + own_commands(layout_box@)) + display_lists(kids, kids.len() as int));
}

/// Adds the background of a box to the list.
fn render_background(list: &mut DisplayList, layout_box: &LayoutBox)
    requires
        layout_box@.dimensions.in_range(),
    ensures
        commands_view(final(list)@) == commands_view(old(list)@) + background(layout_box@),
{
    let ghost l0 = commands_view(list@);
    match get_color(layout_box, "background") {
        Some(color) => {
            let command = DisplayCommand::SolidColor(color, layout_box.dimensions.border_box());
            list.push(command);
            assert(commands_view(list@) =~= l0 + seq![command@]);
        },
        None => {
            assert(l0 + Seq::<CommandView>::empty() =~= l0);
        },
    }
}

/// Adds the borders of a box to the list.
fn render_borders(list: &mut DisplayList, layout_box: &LayoutBox)
    requires
        layout_box@.dimensions.in_range(),
    ensures
        commands_view(final(list)@) == commands_view(old(list)@) + borders(layout_box@),
{
    let ghost l0 = commands_view(list@);
    let color = match get_color(layout_box, "border-color") {
        Some(color) => color,
        None => {
            assert(l0 + Seq::<CommandView>::empty() =~= l0);
            return ;
        },
    };
    let d = &layout_box.dimensions;
    let border_box = d.border_box();
    let left = DisplayCommand::SolidColor(
        color,
        Rect { x: border_box.x, y: border_box.y, width: d.border.left, height: border_box.height },
    );
    let right = DisplayCommand::SolidColor(
        color,
        Rect {
            x: border_box.x + border_box.width - d.border.right,
            y: border_box.y,
            width: d.border.right,
            height: border_box.height,
        },
    );
    let top = DisplayCommand::SolidColor(
        color,
        Rect { x: border_box.x, y: border_box.y, width: border_box.width, height: d.border.top },
    );
    let bottom = DisplayCommand::SolidColor(
        color,
        Rect {
            x: border_box.x,
            y: border_box.y + border_box.height - d.border.bottom,
            width: border_box.width,
            height: d.border.bottom,
        },
    );
    let ghost added = seq![left@, right@, top@, bottom@];
    list.push(left);
    list.push(right);
    list.push(top);
    list.push(bottom);
    assert(commands_view(list@) =~= l0 + added);
}

/// Adds the text of a box to the list.
fn render_text(list: &mut DisplayList, layout_box: &LayoutBox)
    ensures
        commands_view(final(list)@) == commands_view(old(list)@) + text_command(layout_box@),
{
    let ghost l0 = commands_view(list@);
    assert(l0 + Seq::<CommandView>::empty() =~= l0);
    let style_node: &StyledNode = match &layout_box.box_type {
        BoxType::InlineNode(style) => style,
        BoxType::BlockNode(style) => style,
        BoxType::AnonymousBlock => {
            return ;
        },
    };
    if let NodeType::Text(text) = &style_node.node.node_type {
        let text = trim(text.as_str());
        if text.as_str().unicode_len() == 0 {
            return ;
        }
        let color = match style_node.value("color") {
            Some(Value::Color(c)) => c,
            _ => Color { r: 0, g: 0, b: 0, a: 255 },
        };
        let content_box = layout_box.dimensions.content;
        if content_box.width > 0 && content_box.height > 0 {
            let command = DisplayCommand::Text(text, content_box, color);
            list.push(command);
            assert(commands_view(list@) =~= l0 + seq![command@]);
        }
    }
}

/// The colour that the property `name` gives a box, if it gives one.
fn get_color(layout_box: &LayoutBox, name: &str) -> (r: Option<Color>)
    ensures
        r == color_of(layout_box@.kind, name@),
{
    match &layout_box.box_type {
        BoxType::BlockNode(style) => match style.value(name) {
            Some(Value::Color(color)) => Some(color),
            _ => None,
        },
        BoxType::InlineNode(style) => match style.value(name) {
            Some(Value::Color(color)) => Some(color),
            _ => None,
        },
        BoxType::AnonymousBlock => None,
    }
}


// ---------------------------------------------------------------------------
// The canvas

/// The width of the cell of a character, in thousandths of a pixel.
pub const CHAR_WIDTH: i64 = 8_000;

/// The height of the cell of a character, in thousandths of a pixel.
pub const CHAR_HEIGHT: i64 = 12_000;

/// The distance from one line of text to the next, in thousandths of a
/// pixel.
pub const LINE_ADVANCE: i64 = 14_000;

/// A raster of pixels, row after row from the top.
#[derive(Debug)]
pub struct Canvas {
    pub pixels: Vec<Color>,
    pub width: usize,
    pub height: usize,
}

/// Opaque white.
pub open spec fn white() -> Color {
    Color { r: 255, g: 255, b: 255, a: 255 }
}

/// A range of pixels: the columns from `x0` up to `x1` of the rows from `y0`
/// up to `y1`.
pub ghost struct Region {
    pub x0: int,
    pub x1: int,
    pub y0: int,
    pub y1: int,
}

impl Region {
    /// Whether the pixel (`x`, `y`) lies in the range.
    pub open spec fn holds(self, x: int, y: int) -> bool {
        self.x0 <= x < self.x1 && self.y0 <= y < self.y1
    }
}

/// The coordinate `v`, in thousandths of a pixel, held to a canvas that is
/// `limit` pixels wide or high.
pub open spec fn clamped(v: int, limit: int) -> int {
    if v < 0 {
        0
    } else if v > limit * 1000 {
        limit * 1000
    } else {
        v
    }
}

/// The pixels that a rectangle covers on a canvas of the given size: its
/// corners are held to the canvas and rounded down to whole pixels.
pub open spec fn fill_region(rect: RectView, width: int, height: int) -> Region {
    Region {
        x0: clamped(rect.x, width) / 1000,
        x1: clamped(rect.x + rect.width, width) / 1000,
        y0: clamped(rect.y, height) / 1000,
        y1: clamped(rect.y + rect.height, height) / 1000,
    }
}

/// The rectangle that a text is written into, held to the canvas: where a
/// line starts, and where the lines end to the right and at the bottom.
pub ghost struct TextFrame {
    pub left: int,
    pub right: int,
    pub bottom: int,
}

/// The cell of a character whose top left corner is at (`x`, `y`): 8 by 12
/// pixels, cut off where the frame ends.
pub open spec fn cell(frame: TextFrame, x: int, y: int) -> Region {
    Region {
        x0: x / 1000,
        x1: (if x + CHAR_WIDTH < frame.right {
            x + CHAR_WIDTH
        } else {
            frame.right
        }) / 1000,
        y0: y / 1000,
        y1: (if y + CHAR_HEIGHT < frame.bottom {
            y + CHAR_HEIGHT
        } else {
            frame.bottom
        }) / 1000,
    }
}

/// The pixels of the stand-in glyph in a cell: the border of the cell, and
/// inside it the pixels where the sum of column and row is a multiple of 3.
pub open spec fn glyph(cell: Region, x: int, y: int) -> bool {
    cell.holds(x, y) && (x == cell.x0 || x == cell.x1 - 1 || y == cell.y0 || y == cell.y1 - 1 || (x
        + y) % 3 == 0)
}

/// Whether the characters of `text` from the `k`th on colour the pixel
/// (`px`, `py`), where the `k`th character is due at (`x`, `y`).
///
/// A line break, or a character that does not fit before the right end of
/// the frame, starts a new line. Where a new line does not fit above the
/// bottom of the frame, the text ends, except that line breaks are still
/// passed. White space moves on and colours nothing.
pub open spec fn text_paints(
    text: Seq<char>,
    k: int,
    frame: TextFrame,
    x: int,
    y: int,
    px: int,
    py: int,
) -> bool
    decreases text.len() - k,
{
    if !(0 <= k < text.len()) {
        false
    } else {
        let wrap = text[k] == '\n' || x + CHAR_WIDTH > frame.right;
        let cx = if wrap {
            frame.left
        } else {
            x
        };
        let cy = if wrap {
            y + LINE_ADVANCE
        } else {
            y
        };
        if text[k] == '\n' {
            text_paints(text, k + 1, frame, cx, cy, px, py)
        } else if wrap && cy + CHAR_HEIGHT > frame.bottom {
            false
        } else if is_whitespace(text[k]) {
            text_paints(text, k + 1, frame, cx + CHAR_WIDTH, cy, px, py)
        } else {
            glyph(cell(frame, cx, cy), px, py) || text_paints(
                text,
                k + 1,
                frame,
                cx + CHAR_WIDTH,
                cy,
                px,
                py,
            )
        }
    }
}

/// The frame of a text in a rectangle on a canvas of the given size.
pub open spec fn text_frame(rect: RectView, width: int, height: int) -> TextFrame {
    TextFrame {
        left: clamped(rect.x, width),
        right: clamped(rect.x + rect.width, width),
        bottom: clamped(rect.y + rect.height, height),
    }
}

/// Whether a command colours the pixel (`x`, `y`) of a canvas of the given
/// size.
pub open spec fn covers(command: CommandView, width: int, height: int, x: int, y: int) -> bool {
    match command {
        CommandView::SolidColor(_, rect) => fill_region(rect, width, height).holds(x, y),
        CommandView::Text(text, rect, _) => text_paints(
            text,
            0,
            text_frame(rect, width, height),
            clamped(rect.x, width),
            clamped(rect.y, height),
            x,
            y,
        ),
    }
}

/// The colour that a command paints in.
pub open spec fn ink(command: CommandView) -> Color {
    match command {
        CommandView::SolidColor(c, _) => c,
        CommandView::Text(_, _, c) => c,
    }
}

/// The colour of the pixel (`x`, `y`) after the first `n` of the commands
/// were painted, one over the other, on a pixel of the colour `base`.
pub open spec fn painted_color(
    commands: Seq<CommandView>,
    n: int,
    width: int,
    height: int,
    x: int,
    y: int,
    base: Color,
) -> Color
    decreases n,
{
    if n <= 0 || n > commands.len() {
        base
    } else if covers(commands[n - 1], width, height, x, y) {
        ink(commands[n - 1])
    } else {
        painted_color(commands, n - 1, width, height, x, y, base)
    }
}

/// A pixel has one place in the raster, and no other pixel has it.
pub proof fn lemma_pixel_index(x1: int, y1: int, x2: int, y2: int, width: int, height: int)
    requires
        0 <= x1 < width,
        0 <= y1 < height,
        0 <= x2 < width,
        0 <= y2 < height,
    ensures
        0 <= y1 * width + x1 < width * height,
        (y1 * width + x1 == y2 * width + x2) ==> (x1 == x2 && y1 == y2),
{
    assert(0 <= y1 * width + x1 < width * height) by (nonlinear_arith)
        requires
            0 <= x1 < width,
            0 <= y1 < height,
    ;
    assert((y1 * width + x1 == y2 * width + x2) ==> (x1 == x2 && y1 == y2)) by (nonlinear_arith)
        requires
            0 <= x1 < width,
            0 <= x2 < width,
            0 <= y1,
            0 <= y2,
    ;
}

fn clamp_coordinate(v: i128, limit: usize) -> (r: i128)
    ensures
        r == clamped(v as int, limit as int),
        0 <= r <= limit * 1000,
{
    let max: i128 = (limit as i128) * 1000;
    if v < 0 {
        0
    } else if v > max {
        max
    } else {
        v
    }
}

fn to_pixel(v: i128, limit: usize) -> (r: usize)
    requires
        0 <= v <= limit * 1000,
    ensures
        r == v as int / 1000,
        r <= limit,
{
    (v / 1000) as usize
}

impl Canvas {
    /// The pixels are as many as width and height say.
    pub open spec fn wf(&self) -> bool {
        self.pixels.len() == self.width * self.height
    }

    /// The colour of the pixel in column `x` of row `y`.
    pub open spec fn pixel(&self, x: int, y: int) -> Color {
        self.pixels@[y * self.width + x]
    }

    /// A white canvas.
    pub fn new(width: usize, height: usize) -> (canvas: Canvas)
        requires
            width * height <= usize::MAX,
        ensures
            canvas.wf(),
            canvas.width == width,
            canvas.height == height,
            forall|i: int| 0 <= i < canvas.pixels.len() ==> canvas.pixels[i] == white(),
    {
        let white = Color { r: 255, g: 255, b: 255, a: 255 };
        Canvas { pixels: vec![white; width * height], width, height }
    }

    /// The colour of the pixel in column `x` of row `y`.
    pub fn get(&self, x: usize, y: usize) -> (c: Color)
        requires
            self.wf(),
            x < self.width,
            y < self.height,
        ensures
            c == self.pixel(x as int, y as int),
    {
        proof {
            lemma_pixel_index(
                x as int,
                y as int,
                x as int,
                y as int,
                self.width as int,
                self.height as int,
            );
        }
        self.pixels[y * self.width + x]
    }

    /// The pixels as numbers `0xRRGGBB`, row after row.
    pub fn to_rgb_buffer(&self) -> (buffer: Vec<u32>)
        ensures
            buffer.len() == self.pixels.len(),
            forall|i: int| 0 <= i < buffer.len() ==> buffer[i] == rgb(self.pixels[i]),
    {
        let mut buffer: Vec<u32> = Vec::new();
        let mut i: usize = 0;
        while i < self.pixels.len()
            invariant
                i <= self.pixels.len(),
                buffer.len() == i,
                forall|j: int| 0 <= j < i ==> buffer[j] == rgb(self.pixels[j]),
            decreases self.pixels.len() - i,
        {
            buffer.push(color_to_u32(&self.pixels[i]));
            i = i + 1;
        }
        buffer
    }

    /// The canvas as a plain PPM image.
    pub fn to_ppm(&self) -> (text: String)
        ensures
            text@ == ppm(self.width as nat, self.height as nat, self.pixels@),
    {
        let mut text = String::new();
        text.push('P');
        text.push('3');
        text.push('\n');
        push_decimal(&mut text, self.width);
        text.push(' ');
        push_decimal(&mut text, self.height);
        text.push('\n');
        text.push('2');
        text.push('5');
        text.push('5');
        text.push('\n');
        assert(text@ =~= ppm_header(self.width as nat, self.height as nat));
        let ghost header = text@;
        let mut i: usize = 0;
        assert(header + Seq::<char>::empty() =~= header);
        while i < self.pixels.len()
            invariant
                i <= self.pixels.len(),
                text@ == header + ppm_body(self.pixels@, i as int),
            decreases self.pixels.len() - i,
        {
            let ghost before = text@;
            if i > 0 {
                text.push(' ');
            }
            let color = self.pixels[i];
            let ghost mid = text@;
            push_decimal(&mut text, color.r as usize);
            text.push(' ');
            push_decimal(&mut text, color.g as usize);
            text.push(' ');
            push_decimal(&mut text, color.b as usize);
            assert(text@ =~= mid + ppm_pixel(color));
            assert(text@ =~= header + ppm_body(self.pixels@, i + 1));
            i = i + 1;
        }
        text
    }

    /// Colours the pixels of a range for which `only_glyph` does not rule
    /// them out: all of them, or those of the glyph in the range as a cell.
    fn paint_region(&mut self, x0: usize, x1: usize, y0: usize, y1: usize, color: Color, only_glyph: bool)
        requires
            old(self).wf(),
            x1 <= old(self).width,
            y1 <= old(self).height,
        ensures
            final(self).wf(),
            final(self).width == old(self).width,
            final(self).height == old(self).height,
            final(self).pixels.len() == old(self).pixels.len(),
            forall|x: int, y: int|
                0 <= x < final(self).width && 0 <= y < final(self).height ==> #[trigger] final(self).pixel(x, y) == (if region_paints(
                    Region { x0: x0 as int, x1: x1 as int, y0: y0 as int, y1: y1 as int },
                    only_glyph,
                    x,
                    y,
                ) {
                    color
                } else {
                    old(self).pixel(x, y)
                }),
    {
        let ghost region = Region { x0: x0 as int, x1: x1 as int, y0: y0 as int, y1: y1 as int };
        let ghost before = *self;
        let width = self.width;
        let height = self.height;
        let mut y: usize = y0;
        while y < y1
            invariant
                self.wf(),
                self.width == width,
                self.height == height,
                before.width == width,
                before.height == height,
                x1 <= width,
                y1 <= height,
                y0 <= y,
                region == (Region { x0: x0 as int, x1: x1 as int, y0: y0 as int, y1: y1 as int }),
                forall|px: int, py: int|
                    0 <= px < width && 0 <= py < height ==> #[trigger] self.pixel(px, py) == (
                    if region_paints(region, only_glyph, px, py) && py < y {
                        color
                    } else {
                        before.pixel(px, py)
                    }),
            decreases y1 - y,
        {
            let mut x: usize = x0;
            while x < x1
                invariant
                    self.wf(),
                    self.width == width,
                    self.height == height,
                    before.width == width,
                    before.height == height,
                    x1 <= width,
                    y0 <= y < y1 <= height,
                    x0 <= x,
                    region == (Region {
                        x0: x0 as int,
                        x1: x1 as int,
                        y0: y0 as int,
                        y1: y1 as int,
                    }),
                    forall|px: int, py: int|
                        0 <= px < width && 0 <= py < height ==> #[trigger] self.pixel(px, py) == (
                        if region_paints(region, only_glyph, px, py) && (py < y || (py == y && px
                            < x)) {
                            color
                        } else {
                            before.pixel(px, py)
                        }),
                decreases x1 - x,
            {
                let draw = !only_glyph || x == x0 || x == x1 - 1 || y == y0 || y == y1 - 1 || (x
                    % 3 + y % 3) % 3 == 0;
                proof {
                    lemma_pixel_index(
                        x as int,
                        y as int,
                        x as int,
                        y as int,
                        width as int,
                        height as int,
                    );
                    assert(((x % 3 + y % 3) % 3 == 0) == ((x + y) % 3 == 0));
                }
                if draw {
                    let ghost prior = *self;
                    self.pixels[y * width + x] = color;
                    assert forall|px: int, py: int|
                        0 <= px < width && 0 <= py < height implies #[trigger] self.pixel(px, py)
                        == (if region_paints(region, only_glyph, px, py) && (py < y || (py == y
                        && px < x + 1)) {
                        color
                    } else {
                        before.pixel(px, py)
                    }) by {
                        lemma_pixel_index(px, py, x as int, y as int, width as int, height as int);
                        assert(prior.pixel(px, py) == (if region_paints(
                            region,
                            only_glyph,
                            px,
                            py,
                        ) && (py < y || (py == y && px < x)) {
                            color
                        } else {
                            before.pixel(px, py)
                        }));
                    }
                }
                x = x + 1;
            }
            y = y + 1;
        }
    }

    /// Paints one command.
    pub fn paint_item(&mut self, item: &DisplayCommand)
        requires
            old(self).wf(),
        ensures
            final(self).wf(),
            final(self).width == old(self).width,
            final(self).height == old(self).height,
            final(self).pixels.len() == old(self).pixels.len(),
            forall|x: int, y: int|
                0 <= x < final(self).width && 0 <= y < final(self).height ==> #[trigger] final(self).pixel(x, y) == (if covers(
                    item@,
                    old(self).width as int,
                    old(self).height as int,
                    x,
                    y,
                ) {
                    ink(item@)
                } else {
                    old(self).pixel(x, y)
                }),
    {
        match item {
            DisplayCommand::SolidColor(color, rect) => {
                let x0 = to_pixel(clamp_coordinate(rect.x as i128, self.width), self.width);
                let y0 = to_pixel(clamp_coordinate(rect.y as i128, self.height), self.height);
                let x1 = to_pixel(
                    clamp_coordinate(rect.x as i128 + rect.width as i128, self.width),
                    self.width,
                );
                let y1 = to_pixel(
                    clamp_coordinate(rect.y as i128 + rect.height as i128, self.height),
                    self.height,
                );
                self.paint_region(x0, x1, y0, y1, *color, false);
            },
            DisplayCommand::Text(text, rect, color) => {
                self.paint_text(text.as_str(), rect, color);
            },
        }
    }

    /// Writes a text into a rectangle: each character a cell with the
    /// stand-in glyph in it.
    fn paint_text(&mut self, text: &str, rect: &Rect, color: &Color)
        requires
            old(self).wf(),
        ensures
            final(self).wf(),
            final(self).width == old(self).width,
            final(self).height == old(self).height,
            final(self).pixels.len() == old(self).pixels.len(),
            forall|x: int, y: int|
                0 <= x < final(self).width && 0 <= y < final(self).height ==> #[trigger] final(self).pixel(x, y) == (if covers(
                    CommandView::Text(text@, rect@, *color),
                    old(self).width as int,
                    old(self).height as int,
                    x,
                    y,
                ) {
                    *color
                } else {
                    old(self).pixel(x, y)
                }),
    {
        let chars = chars_of(text);
        let width = self.width;
        let height = self.height;
        let x0 = clamp_coordinate(rect.x as i128, width);
        let y0 = clamp_coordinate(rect.y as i128, height);
        let max_x = clamp_coordinate(rect.x as i128 + rect.width as i128, width);
        let max_y = clamp_coordinate(rect.y as i128 + rect.height as i128, height);
        let ghost frame = text_frame(rect@, width as int, height as int);
        let ghost before = *self;
        let mut x: i128 = x0;
        let mut y: i128 = y0;
        let mut k: usize = 0;
        while k < chars.len()
            invariant_except_break
                0 <= x <= width * 1000 + CHAR_WIDTH,
                0 <= y <= height * 1000 + LINE_ADVANCE * k,
                forall|px: int, py: int|
                    0 <= px < width && 0 <= py < height ==> over(
                        text_paints(chars@, k as int, frame, x as int, y as int, px, py),
                        *color,
                        #[trigger] self.pixel(px, py),
                    ) == over(
                        text_paints(chars@, 0, frame, x0 as int, y0 as int, px, py),
                        *color,
                        before.pixel(px, py),
                    ),
            invariant
                self.wf(),
                self.width == width,
                self.height == height,
                before.width == width,
                before.height == height,
                chars@ == text@,
                k <= chars.len(),
                frame == text_frame(rect@, width as int, height as int),
                frame.left == x0,
                frame.right == max_x,
                frame.bottom == max_y,
                0 <= x0 <= width * 1000,
                0 <= max_x <= width * 1000,
                0 <= max_y <= height * 1000,
            ensures
                self.wf(),
                self.width == width,
                self.height == height,
                forall|px: int, py: int|
                    0 <= px < width && 0 <= py < height ==> #[trigger] self.pixel(px, py) == (
                    if text_paints(chars@, 0, frame, x0 as int, y0 as int, px, py) {
                        *color
                    } else {
                        before.pixel(px, py)
                    }),
            decreases chars.len() - k,
        {
            let ch = chars[k];
            let ghost x_before = x as int;
            let ghost y_before = y as int;
            let wrap = ch == '\n' || x + CHAR_WIDTH as i128 > max_x;
            if wrap {
                x = x0;
                y = y + LINE_ADVANCE as i128;
            }
            if ch == '\n' {
                assert forall|px: int, py: int|
                    text_paints(chars@, k as int, frame, x_before, y_before, px, py)
                        == #[trigger] text_paints(chars@, k + 1, frame, x as int, y as int, px, py) by {}
                k = k + 1;
                continue ;
            }
            if wrap && y + CHAR_HEIGHT as i128 > max_y {
                break ;
            }
            if crate::text::char_is_whitespace(ch) {
                assert forall|px: int, py: int|
                    text_paints(chars@, k as int, frame, x_before, y_before, px, py)
                        == #[trigger] text_paints(
                        chars@,
                        k + 1,
                        frame,
                        x + CHAR_WIDTH,
                        y as int,
                        px,
                        py,
                    ) by {}
                x = x + CHAR_WIDTH as i128;
                k = k + 1;
                continue ;
            }
            let right = if x + (CHAR_WIDTH as i128) < max_x {
                x + CHAR_WIDTH as i128
            } else {
                max_x
            };
            let bottom = if y + (CHAR_HEIGHT as i128) < max_y {
                y + CHAR_HEIGHT as i128
            } else {
                max_y
            };
            let ghost c = cell(frame, x as int, y as int);
            let ghost prior = *self;
            if x < right && y < bottom {
                let cx0 = to_pixel(x, width);
                let cy0 = to_pixel(y, height);
                let cx1 = to_pixel(right, width);
                let cy1 = to_pixel(bottom, height);
                self.paint_region(cx0, cx1, cy0, cy1, *color, true);
                proof {
                    assert(c == (Region {
                        x0: cx0 as int,
                        x1: cx1 as int,
                        y0: cy0 as int,
                        y1: cy1 as int,
                    }));
                    assert forall|px: int, py: int|
                        0 <= px < width && 0 <= py < height implies #[trigger] self.pixel(px, py)
                        == (if glyph(c, px, py) {
                        *color
                    } else {
                        prior.pixel(px, py)
                    }) by {
                        assert(region_paints(c, true, px, py) == glyph(c, px, py));
                    }
                }
            } else {
                assert forall|px: int, py: int| !glyph(c, px, py) by {
                    if x >= right {
                        assert(c.x0 >= c.x1);
                    } else {
                        assert(c.y0 >= c.y1);
                    }
                }
            }
            assert forall|px: int, py: int| 0 <= px < width && 0 <= py < height implies over(
                text_paints(chars@, k + 1, frame, x + CHAR_WIDTH, y as int, px, py),
                *color,
                #[trigger] self.pixel(px, py),
            ) == over(
                text_paints(chars@, 0, frame, x0 as int, y0 as int, px, py),
                *color,
                before.pixel(px, py),
            ) by {
                assert(text_paints(chars@, k as int, frame, x_before, y_before, px, py) == (glyph(
                    c,
                    px,
                    py,
                ) || text_paints(chars@, k + 1, frame, x + CHAR_WIDTH, y as int, px, py)));
                assert(self.pixel(px, py) == over(glyph(c, px, py), *color, prior.pixel(px, py)));
            }
            x = x + CHAR_WIDTH as i128;
            k = k + 1;
        }
    }

    /// Paints the commands of a display list, one over the other.
    pub fn paint(&mut self, display_list: &DisplayList)
        requires
            old(self).wf(),
        ensures
            final(self).wf(),
            final(self).width == old(self).width,
            final(self).height == old(self).height,
            final(self).pixels.len() == old(self).pixels.len(),
            forall|x: int, y: int|
                0 <= x < final(self).width && 0 <= y < final(self).height ==> #[trigger] final(self).pixel(x, y) == painted_color(
                    commands_view(display_list@),
                    display_list.len() as int,
                    old(self).width as int,
                    old(self).height as int,
                    x,
                    y,
                    old(self).pixel(x, y),
                ),
    {
        let ghost before = *self;
        let ghost commands = commands_view(display_list@);
        let mut i: usize = 0;
        while i < display_list.len()
            invariant
                i <= display_list.len(),
                self.wf(),
                self.width == before.width,
                self.height == before.height,
                commands == commands_view(display_list@),
                forall|x: int, y: int|
                    0 <= x < self.width && 0 <= y < self.height ==> #[trigger] self.pixel(x, y)
                        == painted_color(
                        commands,
                        i as int,
                        before.width as int,
                        before.height as int,
                        x,
                        y,
                        before.pixel(x, y),
                    ),
            decreases display_list.len() - i,
        {
            let ghost prior = *self;
            self.paint_item(&display_list[i]);
            assert(commands[i as int] == display_list@[i as int]@);
            assert forall|x: int, y: int|
                0 <= x < self.width && 0 <= y < self.height implies #[trigger] self.pixel(x, y)
                == painted_color(
                commands,
                i + 1,
                before.width as int,
                before.height as int,
                x,
                y,
                before.pixel(x, y),
            ) by {
                assert(prior.pixel(x, y) == painted_color(
                    commands,
                    i as int,
                    before.width as int,
                    before.height as int,
                    x,
                    y,
                    before.pixel(x, y),
                ));
            }
            i = i + 1;
        }
    }
}

/// The colour as the number `0xRRGGBB`.
pub open spec fn rgb(c: Color) -> u32 {
    (c.r as u32 * 65536 + c.g as u32 * 256 + c.b as u32) as u32
}

/// The colour as the number `0xRRGGBB`.
pub fn color_to_u32(color: &Color) -> (n: u32)
    ensures
        n == rgb(*color),
{
    (color.r as u32) * 65536 + (color.g as u32) * 256 + (color.b as u32)
}

/// The head of a plain PPM image: the magic number, width and height, and
/// the largest value of a channel, 255.
pub open spec fn ppm_header(width: nat, height: nat) -> Seq<char> {
    seq!['P', '3', '\n'] + decimal(width) + seq![' '] + decimal(height) + seq![
        '\n',
        '2',
        '5',
        '5',
        '\n',
    ]
}

/// A pixel in a plain PPM image: red, green and blue in decimal digits.
pub open spec fn ppm_pixel(c: Color) -> Seq<char> {
    decimal(c.r as nat) + seq![' '] + decimal(c.g as nat) + seq![' '] + decimal(c.b as nat)
}

/// The first `n` pixels in a plain PPM image, with a space between two.
pub open spec fn ppm_body(pixels: Seq<Color>, n: int) -> Seq<char>
    decreases n,
{
    if n <= 0 || n > pixels.len() {
        Seq::empty()
    } else if n == 1 {
        ppm_pixel(pixels[0])
    } else {
        ppm_body(pixels, n - 1) + seq![' '] + ppm_pixel(pixels[n - 1])
    }
}

/// A canvas as a plain PPM image.
pub open spec fn ppm(width: nat, height: nat, pixels: Seq<Color>) -> Seq<char> {
    ppm_header(width, height) + ppm_body(pixels, pixels.len() as int)
}

/// The colour of a pixel that was `under` after something was painted in
/// `color`: `color` where it `paints` the pixel.
pub open spec fn over(paints: bool, color: Color, under: Color) -> Color {
    if paints {
        color
    } else {
        under
    }
}

/// Whether painting a range colours the pixel (`x`, `y`): it lies in the
/// range, and where only the glyph is painted, it belongs to the glyph.
pub open spec fn region_paints(region: Region, only_glyph: bool, x: int, y: int) -> bool {
    if only_glyph {
        glyph(region, x, y)
    } else {
        region.holds(x, y)
    }
}

} // verus!
