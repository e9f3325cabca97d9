//! The whole pipeline: from the text of a document and of a style sheet to
//! the display list and the pixels of the page.

use vstd::prelude::*;
use crate::css::{stylesheet, CssError, Parser as CssParser};
use crate::html::{document, HtmlError, Parser as HtmlParser};
use crate::layout::{
    layout_of, layout_tree, Dimensions, DimensionsView, EdgeSizes, EdgesView, LayoutError, Rect,
    RectView,
};
use crate::painting::{
    build_display_list, commands_view, display_list, painted_color, white, Canvas, CommandView,
    DisplayList,
};
use crate::style::{style_tree, styled, Display};

verus! {

/// The widest and the highest that a viewport can be, in pixels.
pub const MAX_VIEWPORT: usize = 1_000_000_000;

/// Why a page could not be rendered.
#[derive(Debug, Clone, Copy, PartialEq, Eq, Structural)]
pub enum RenderError {
    /// The viewport is wider or higher than `MAX_VIEWPORT`, or it has more
    /// pixels than a canvas can hold.
    ViewportTooLarge,
    /// The document was rejected.
    Html(HtmlError),
    /// The style sheet was rejected.
    Css(CssError),
    /// The root of the document is no block.
    RootNotBlock,
    /// The page does not fit the coordinates that a box can hold.
    Layout(LayoutError),
}

/// A rendered page.
#[derive(Debug)]
pub struct Page {
    /// The commands that paint the page.
    pub display_list: DisplayList,
    /// The page, painted on a white canvas as large as the viewport.
    pub canvas: Canvas,
}

/// The viewport of a page that is `width` by `height` pixels: a box without
/// edges at the origin.
pub open spec fn viewport(width: int, height: int) -> DimensionsView {
    DimensionsView {
        content: RectView { x: 0, y: 0, width: width * 1000, height: height * 1000 },
        padding: EdgesView::zero(),
        border: EdgesView::zero(),
        margin: EdgesView::zero(),
    }
}

/// The display list of the page that a document and a style sheet write in
/// a viewport of the given width, or the reason why there is none.
pub open spec fn page_commands(html: Seq<char>, css: Seq<char>, width: int, height: int) -> Result<
    Seq<CommandView>,
    RenderError,
> {
    if width > MAX_VIEWPORT || height > MAX_VIEWPORT || width * height > usize::MAX {
        Err(RenderError::ViewportTooLarge)
    } else {
        match document(html) {
            Err(e) => Err(RenderError::Html(e)),
            Ok((root, _)) => match stylesheet(css) {
                Err(e) => Err(RenderError::Css(e)),
                Ok(sheet) => {
                    let style_root = styled(root, sheet, None);
                    let layout_root = layout_of(style_root, viewport(width, height));
                    if style_root.display() != Display::Block {
                        Err(RenderError::RootNotBlock)
                    } else if !layout_root.in_range() {
                        Err(RenderError::Layout(LayoutError::OutOfRange))
                    } else {
                        Ok(display_list(layout_root))
                    }
                },
            },
        }
    }
}

/// Renders a document with a style sheet into a viewport of `width` by
/// `height` pixels.
pub fn render(html: &str, css: &str, width: usize, height: usize) -> (r: Result<Page, RenderError>)
    ensures
        match (r, page_commands(html@, css@, width as int, height as int)) {
            (Ok(page), Ok(commands)) => {
                &&& commands_view(page.display_list@) == commands
                &&& page.canvas.wf()
                &&& page.canvas.width == width
                &&& page.canvas.height == height
                &&& forall|x: int, y: int|
                    0 <= x < width && 0 <= y < height ==> #[trigger] page.canvas.pixel(x, y)
                        == painted_color(
                        commands,
                        commands.len() as int,
                        width as int,
                        height as int,
                        x,
                        y,
                        white(),
                    )
            },
            (Err(e), Err(f)) => e == f,
            _ => false,
        },
{
    if width > MAX_VIEWPORT || height > MAX_VIEWPORT || width.checked_mul(height).is_none() {
        return Err(RenderError::ViewportTooLarge);
    }
    let root = match HtmlParser::parse(html.to_owned()) {
        Ok(root) => root,
        Err(e) => {
            return Err(RenderError::Html(e));
        },
    };
    let sheet = match CssParser::parse(css.to_owned()) {
        Ok(sheet) => sheet,
        Err(e) => {
            return Err(RenderError::Css(e));
        },
    };
    let style_root = style_tree(&root, &sheet);
    match style_root.display() {
        Display::Block => {},
        _ => {
            return Err(RenderError::RootNotBlock);
        },
    }
    let frame = Dimensions {
        content: Rect { x: 0, y: 0, width: (width as i64) * 1000, height: (height as i64) * 1000 },
        padding: EdgeSizes::default(),
        border: EdgeSizes::default(),
        margin: EdgeSizes::default(),
    };
    assert(frame@ == viewport(width as int, height as int));
    let layout_root = match layout_tree(&style_root, frame) {
        Ok(b) => b,
        Err(e) => {
            return Err(RenderError::Layout(e));
        },
    };
    let list = build_display_list(&layout_root);
    let mut canvas = Canvas::new(width, height);
    proof {
        assert forall|x: int, y: int| 0 <= x < width && 0 <= y < height implies canvas.pixel(x, y)
            == white() by {
            crate::painting::lemma_pixel_index(x, y, x, y, width as int, height as int);
        }
    }
    canvas.paint(&list);
    Ok(Page { display_list: list, canvas })
}

} // verus!
