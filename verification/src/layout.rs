//! Block layout: the tree of boxes for a styled tree, and the geometry of
//! every box.
//!
//! All geometry is in thousandths of a pixel. A coordinate that a box holds
//! lies between `-MAX_COORDINATE` and `MAX_COORDINATE`; layout fails where
//! one would not.

use vstd::prelude::*;
use crate::css::{Unit, Value, ValueView};
use crate::dom::{NodeType, NodeTypeView};
use crate::style::{Display, StyledNode, StyledView};
use crate::text::{is_whitespace, CharClass};

verus! {

/// The largest coordinate that a box holds, in thousandths of a pixel.
pub const MAX_COORDINATE: i64 = 1_000_000_000_000_000_000;

/// The height of a line of text, in thousandths of a pixel.
pub const LINE_HEIGHT: i64 = 14_000;

/// A rectangle.
#[derive(Debug, Clone, Copy, PartialEq, Eq, Structural)]
pub struct Rect {
    pub x: i64,
    pub y: i64,
    pub width: i64,
    pub height: i64,
}

/// The thickness of the four edges of a box.
#[derive(Debug, Clone, Copy, PartialEq, Eq, Structural)]
pub struct EdgeSizes {
    pub left: i64,
    pub right: i64,
    pub top: i64,
    pub bottom: i64,
}

/// The geometry of a box: the content rectangle, and around it padding,
/// border and margin.
#[derive(Debug, Clone, Copy, PartialEq, Eq, Structural)]
pub struct Dimensions {
    pub content: Rect,
    pub padding: EdgeSizes,
    pub border: EdgeSizes,
    pub margin: EdgeSizes,
}

/// What a box stands for.
#[derive(Debug)]
pub enum BoxType<'a> {
    BlockNode(&'a StyledNode<'a>),
    InlineNode(&'a StyledNode<'a>),
    AnonymousBlock,
}

/// A box of the layout tree, which owns its children in order.
#[derive(Debug)]
pub struct LayoutBox<'a> {
    pub dimensions: Dimensions,
    pub box_type: BoxType<'a>,
    pub children: Vec<LayoutBox<'a>>,
}

/// Why layout failed.
#[derive(Debug, Clone, Copy, PartialEq, Eq, Structural)]
pub enum LayoutError {
    /// A coordinate of some box is beyond `MAX_COORDINATE`.
    OutOfRange,
}

/// A rectangle as a mathematical value.
pub ghost struct RectView {
    pub x: int,
    pub y: int,
    pub width: int,
    pub height: int,
}

/// The four edges of a box as a mathematical value.
pub ghost struct EdgesView {
    pub left: int,
    pub right: int,
    pub top: int,
    pub bottom: int,
}

/// The geometry of a box as a mathematical value.
pub ghost struct DimensionsView {
    pub content: RectView,
    pub padding: EdgesView,
    pub border: EdgesView,
    pub margin: EdgesView,
}

/// What a box stands for, as a mathematical value.
pub ghost enum BoxKind {
    Block(StyledView),
    Inline(StyledView),
    Anonymous,
}

/// A layout tree as a mathematical value.
pub ghost struct LayoutView {
    pub dimensions: DimensionsView,
    pub kind: BoxKind,
    pub children: Seq<LayoutView>,
}

/// Whether a coordinate is one that a box can hold.
pub open spec fn in_range(v: int) -> bool {
    -MAX_COORDINATE <= v <= MAX_COORDINATE
}

impl Rect {
    /// The rectangle as a mathematical value.
    pub open spec fn view(&self) -> RectView {
        RectView {
            x: self.x as int,
            y: self.y as int,
            width: self.width as int,
            height: self.height as int,
        }
    }
}

impl RectView {
    /// The rectangle grown by the edges on each side.
    pub open spec fn expanded_by(self, edge: EdgesView) -> RectView {
        RectView {
            x: self.x - edge.left,
            y: self.y - edge.top,
            width: self.width + edge.left + edge.right,
            height: self.height + edge.top + edge.bottom,
        }
    }

    /// Whether every coordinate is one that a box can hold.
    pub open spec fn in_range(self) -> bool {
        in_range(self.x) && in_range(self.y) && in_range(self.width) && in_range(self.height)
    }

    /// The empty rectangle at the origin.
    pub open spec fn zero() -> RectView {
        RectView { x: 0, y: 0, width: 0, height: 0 }
    }
}

impl EdgeSizes {
    /// The edges as a mathematical value.
    pub open spec fn view(&self) -> EdgesView {
        EdgesView {
            left: self.left as int,
            right: self.right as int,
            top: self.top as int,
            bottom: self.bottom as int,
        }
    }
}

impl EdgesView {
    /// Whether every thickness is one that a box can hold.
    pub open spec fn in_range(self) -> bool {
        in_range(self.left) && in_range(self.right) && in_range(self.top) && in_range(self.bottom)
    }

    /// Edges without thickness.
    pub open spec fn zero() -> EdgesView {
        EdgesView { left: 0, right: 0, top: 0, bottom: 0 }
    }
}

impl Dimensions {
    /// The geometry as a mathematical value.
    pub open spec fn view(&self) -> DimensionsView {
        DimensionsView {
            content: self.content@,
            padding: self.padding@,
            border: self.border@,
            margin: self.margin@,
        }
    }

    /// Whether every coordinate is one that a box can hold.
    pub fn fits(&self) -> (b: bool)
        ensures
            b == self@.in_range(),
    {
        coordinate_fits(self.content.x) && coordinate_fits(self.content.y) && coordinate_fits(
            self.content.width,
        ) && coordinate_fits(self.content.height) && edges_fit(&self.padding) && edges_fit(
            &self.border,
        ) && edges_fit(&self.margin)
    }

    /// The content rectangle and the padding around it.
    pub fn padding_box(&self) -> (r: Rect)
        requires
            self@.in_range(),
        ensures
            r@ == self@.padding_box(),
    {
        expand(&self.content, &self.padding, 1)
    }

    /// The padding box and the border around it.
    pub fn border_box(&self) -> (r: Rect)
        requires
            self@.in_range(),
        ensures
            r@ == self@.border_box(),
    {
        let inner = self.padding_box();
        expand(&inner, &self.border, 2)
    }

    /// The border box and the margin around it.
    pub fn margin_box(&self) -> (r: Rect)
        requires
            self@.in_range(),
        ensures
            r@ == self@.margin_box(),
    {
        let inner = self.border_box();
        expand(&inner, &self.margin, 3)
    }
}

fn coordinate_fits(v: i64) -> (b: bool)
    ensures
        b == in_range(v as int),
{
    -MAX_COORDINATE <= v && v <= MAX_COORDINATE
}

fn edges_fit(edge: &EdgeSizes) -> (b: bool)
    ensures
        b == edge@.in_range(),
{
    coordinate_fits(edge.left) && coordinate_fits(edge.right) && coordinate_fits(edge.top)
        && coordinate_fits(edge.bottom)
}

/// The rectangle grown by the edges on each side. `scale` bounds the
/// coordinates of the rectangle, in multiples of `MAX_COORDINATE`.
fn expand(rect: &Rect, edge: &EdgeSizes, scale: i64) -> (r: Rect)
    requires
        1 <= scale <= 3,
        edge@.in_range(),
        -scale * MAX_COORDINATE <= rect.x <= scale * MAX_COORDINATE,
        -scale * MAX_COORDINATE <= rect.y <= scale * MAX_COORDINATE,
        -(2 * scale - 1) * MAX_COORDINATE <= rect.width <= (2 * scale - 1) * MAX_COORDINATE,
        -(2 * scale - 1) * MAX_COORDINATE <= rect.height <= (2 * scale - 1) * MAX_COORDINATE,
    ensures
        r@ == rect@.expanded_by(edge@),
{
    Rect {
        x: rect.x - edge.left,
        y: rect.y - edge.top,
        width: rect.width + edge.left + edge.right,
        height: rect.height + edge.top + edge.bottom,
    }
}

impl Default for Rect {
    fn default() -> (r: Self)
        ensures
            r@ == RectView::zero(),
    {
        Rect { x: 0, y: 0, width: 0, height: 0 }
    }
}

impl Default for EdgeSizes {
    fn default() -> (r: Self)
        ensures
            r@ == EdgesView::zero(),
    {
        EdgeSizes { left: 0, right: 0, top: 0, bottom: 0 }
    }
}

impl Default for Dimensions {
    fn default() -> (r: Self)
        ensures
            r@ == DimensionsView::zero(),
    {
        Dimensions {
            content: Rect::default(),
            padding: EdgeSizes::default(),
            border: EdgeSizes::default(),
            margin: EdgeSizes::default(),
        }
    }
}

impl DimensionsView {
    /// The content rectangle and the padding around it.
    pub open spec fn padding_box(self) -> RectView {
        self.content.expanded_by(self.padding)
    }

    /// The padding box and the border around it.
    pub open spec fn border_box(self) -> RectView {
        self.padding_box().expanded_by(self.border)
    }

    /// The border box and the margin around it.
    pub open spec fn margin_box(self) -> RectView {
        self.border_box().expanded_by(self.margin)
    }

    /// Whether every coordinate is one that a box can hold.
    pub open spec fn in_range(self) -> bool {
        self.content.in_range() && self.padding.in_range() && self.border.in_range()
            && self.margin.in_range()
    }

    /// The geometry of a box without extent at the origin.
    pub open spec fn zero() -> DimensionsView {
        DimensionsView {
            content: RectView::zero(),
            padding: EdgesView::zero(),
            border: EdgesView::zero(),
            margin: EdgesView::zero(),
        }
    }
}

impl<'a> BoxType<'a> {
    /// What the box stands for, as a mathematical value.
    pub open spec fn view(&self) -> BoxKind {
        match self {
            BoxType::BlockNode(s) => BoxKind::Block(s@),
            BoxType::InlineNode(s) => BoxKind::Inline(s@),
            BoxType::AnonymousBlock => BoxKind::Anonymous,
        }
    }
}

impl<'a> LayoutBox<'a> {
    /// The tree as a mathematical value.
    pub open spec fn view(&self) -> LayoutView
        decreases self,
    {
        LayoutView {
            dimensions: self.dimensions@,
            kind: self.box_type@,
            children: Seq::new(
                self.children@.len(),
                |i: int|
                    if 0 <= i < self.children@.len() {
                        self.children@[i].view()
                    } else {
                        arbitrary()
                    },
            ),
        }
    }

    /// Whether every coordinate of every box of the tree is one that a box
    /// can hold.
    pub fn fits(&self) -> (b: bool)
        ensures
            b == self@.in_range(),
        decreases self,
    {
        if !self.dimensions.fits() {
            return false;
        }
        let mut i: usize = 0;
        while i < self.children.len()
            invariant
                i <= self.children.len(),
                self@.dimensions.in_range(),
                forall|j: int| 0 <= j < i ==> (#[trigger] self@.children[j]).in_range(),
            decreases self.children.len() - i,
        {
            assert(self@.children[i as int] == self.children@[i as int]@);
            if !self.children[i].fits() {
                return false;
            }
            i = i + 1;
        }
        true
    }

    /// A box without children and with no extent.
    pub fn new(box_type: BoxType<'a>) -> (r: LayoutBox<'a>)
        ensures
            r@ == LayoutView::leaf(box_type@),
    {
        let r = LayoutBox { dimensions: Dimensions::default(), box_type, children: Vec::new() };
        assert(r@.children =~= Seq::<LayoutView>::empty());
        r
    }
}

/// The views of a sequence of boxes.
pub open spec fn boxes_view(s: Seq<LayoutBox>) -> Seq<LayoutView> {
    Seq::new(s.len(), |i: int| s[i]@)
}

impl LayoutView {
    /// A box without children and with no extent.
    pub open spec fn leaf(kind: BoxKind) -> LayoutView {
        LayoutView { dimensions: DimensionsView::zero(), kind, children: Seq::empty() }
    }

    /// Every coordinate of every box of the tree is one that a box can hold.
    pub open spec fn in_range(self) -> bool
        decreases self,
    {
        &&& self.dimensions.in_range()
        &&& forall|i: int|
            0 <= i < self.children.len() ==> (#[trigger] self.children[i]).in_range()
    }
}

// ---------------------------------------------------------------------------
// The tree of boxes

/// The kind of box that a styled node gets.
pub open spec fn kind_of(node: StyledView) -> BoxKind {
    if node.display() == Display::Block {
        BoxKind::Block(node)
    } else {
        BoxKind::Inline(node)
    }
}

/// The children of a box after the box of one more styled child was
/// attached: a block goes in as it is; an inline child of a block goes into
/// the anonymous block that ends the list, or into a new one; a child with
/// `display: none` is left out.
pub open spec fn attach(parent_is_block: bool, boxes: Seq<LayoutView>, child: StyledView) -> Seq<
    LayoutView,
>
    decreases child, 1int,
{
    match child.display() {
        Display::Omitted => boxes,
        Display::Block => boxes.push(box_tree(child)),
        Display::Inline => if !parent_is_block {
            boxes.push(box_tree(child))
        } else if boxes.len() > 0 && boxes.last().kind is Anonymous {
            boxes.update(
                boxes.len() - 1,
                LayoutView { children: boxes.last().children.push(box_tree(child)), ..boxes.last() },
            )
        } else {
            boxes.push(
                LayoutView { children: seq![box_tree(child)], ..LayoutView::leaf(BoxKind::Anonymous) },
            )
        },
    }
}

/// The boxes for the first `n` of the styled children of a node.
pub open spec fn child_boxes(parent_is_block: bool, children: Seq<StyledView>, n: int) -> Seq<
    LayoutView,
>
    decreases children, n,
{
    if n <= 0 || n > children.len() {
        Seq::empty()
    } else {
        attach(parent_is_block, child_boxes(parent_is_block, children, n - 1), children[n - 1])
    }
}

/// The tree of boxes for a styled node, before any geometry is computed.
pub open spec fn box_tree(node: StyledView) -> LayoutView
    decreases node, 0int,
{
    LayoutView {
        dimensions: DimensionsView::zero(),
        kind: kind_of(node),
        children: child_boxes(
            node.display() == Display::Block,
            node.children,
            node.children.len() as int,
        ),
    }
}

/// Every anonymous block of the tree has a child, and all its children are
/// inline boxes; and no two anonymous blocks follow each other among the
/// children of a box.
pub open spec fn anonymous_blocks_hold_inline_runs(b: LayoutView) -> bool
    decreases b,
{
    &&& b.kind is Anonymous ==> b.children.len() > 0 && forall|i: int|
        0 <= i < b.children.len() ==> (#[trigger] b.children[i]).kind is Inline
    &&& forall|i: int|
        0 <= i < b.children.len() - 1 ==> !((#[trigger] b.children[i]).kind is Anonymous
            && b.children[i + 1].kind is Anonymous)
    &&& forall|i: int|
        0 <= i < b.children.len() ==> anonymous_blocks_hold_inline_runs(#[trigger] b.children[i])
}

proof fn lemma_child_boxes(parent_is_block: bool, children: Seq<StyledView>, n: int)
    requires
        0 <= n <= children.len(),
    ensures
        forall|i: int|
            0 <= i < child_boxes(parent_is_block, children, n).len()
                ==> anonymous_blocks_hold_inline_runs(
                #[trigger] child_boxes(parent_is_block, children, n)[i],
            ),
        forall|i: int|
            0 <= i < child_boxes(parent_is_block, children, n).len() - 1 ==> !((
            #[trigger] child_boxes(parent_is_block, children, n)[i]).kind is Anonymous
                && child_boxes(parent_is_block, children, n)[i + 1].kind is Anonymous),
    decreases children, n,
{
    if n > 0 {
        lemma_child_boxes(parent_is_block, children, n - 1);
        let before = child_boxes(parent_is_block, children, n - 1);
        let child = children[n - 1];
        let now = child_boxes(parent_is_block, children, n);
        assert(now == attach(parent_is_block, before, child));
        lemma_box_tree(child);
        let b = box_tree(child);
        match child.display() {
            Display::Omitted => {},
            Display::Block => {
                assert(now == before.push(b));
            },
            Display::Inline => {
                if !parent_is_block {
                    assert(now == before.push(b));
                } else if before.len() > 0 && before.last().kind is Anonymous {
                    let last = before.last();
                    let grown = LayoutView { children: last.children.push(b), ..last };
                    assert(now == before.update(before.len() - 1, grown));
                    assert(anonymous_blocks_hold_inline_runs(last));
                    assert(anonymous_blocks_hold_inline_runs(grown)) by {
                        assert forall|i: int| 0 <= i < grown.children.len() implies (
                        #[trigger] grown.children[i]).kind is Inline
                            && anonymous_blocks_hold_inline_runs(grown.children[i]) by {
                            if i < last.children.len() {
                                assert(grown.children[i] == last.children[i]);
                            }
                        }
                        assert forall|i: int| 0 <= i < grown.children.len() - 1 implies !((
                        #[trigger] grown.children[i]).kind is Anonymous && grown.children[i
                            + 1].kind is Anonymous) by {
                            assert(grown.children[i].kind is Inline);
                        }
                    }
                } else {
                    let container = LayoutView {
                        children: seq![b],
                        ..LayoutView::leaf(BoxKind::Anonymous)
                    };
                    assert(now == before.push(container));
                    assert(anonymous_blocks_hold_inline_runs(container)) by {
                        assert(container.children[0] == b);
                    }
                }
            },
        }
    }
}

/// The shape of the tree of boxes: the box of a node is no anonymous block,
/// every anonymous block holds one run of inline boxes, and no two anonymous
/// blocks follow each other.
pub proof fn lemma_box_tree(node: StyledView)
    ensures
        box_tree(node).kind == kind_of(node),
        anonymous_blocks_hold_inline_runs(box_tree(node)),
    decreases node, 0int,
{
    lemma_child_boxes(
        node.display() == Display::Block,
        node.children,
        node.children.len() as int,
    );
}

/// Layout keeps the tree: the box that was laid out is of the same kind and
/// has as many children, and its children are the children laid out.
pub proof fn lemma_layout_keeps_shape(tree: LayoutView, containing: RectView)
    requires
        anonymous_blocks_hold_inline_runs(tree),
    ensures
        laid_out(tree, containing).kind == tree.kind,
        laid_out(tree, containing).children.len() == tree.children.len(),
        forall|i: int|
            0 <= i < tree.children.len() ==> (#[trigger] laid_out(tree, containing).children[i]).kind
                == tree.children[i].kind,
        anonymous_blocks_hold_inline_runs(laid_out(tree, containing)),
    decreases tree,
{
    let frame = frame_of(tree.kind, containing);
    let out = laid_out(tree, containing);
    let n = tree.children.len() as int;
    lemma_laid_out_children_len(tree.children, frame.content, n);
    assert forall|i: int| 0 <= i < n implies (#[trigger] out.children[i]).kind
        == tree.children[i].kind && anonymous_blocks_hold_inline_runs(out.children[i]) by {
        lemma_laid_out_children_prefix(tree.children, frame.content, n, i);
        assert(anonymous_blocks_hold_inline_runs(tree.children[i]));
        lemma_layout_keeps_shape(
            tree.children[i],
            RectView {
                height: flow_height(laid_out_children(tree.children, frame.content, i)),
                ..frame.content
            },
        );
    }
    assert forall|i: int| 0 <= i < out.children.len() - 1 implies !((
    #[trigger] out.children[i]).kind is Anonymous && out.children[i + 1].kind is Anonymous) by {
        assert(!(tree.children[i].kind is Anonymous && tree.children[i + 1].kind is Anonymous));
    }
}

/// Builds the tree of boxes for a styled node.
pub fn build_layout_tree<'a>(style_node: &'a StyledNode<'a>) -> (r: LayoutBox<'a>)
    requires
        style_node@.display() != Display::Omitted,
    ensures
        r@ == box_tree(style_node@),
    decreases style_node,
{
    let is_block = match style_node.display() {
        Display::Block => true,
        _ => false,
    };
    let box_type = if is_block {
        BoxType::BlockNode(style_node)
    } else {
        BoxType::InlineNode(style_node)
    };
    let mut children: Vec<LayoutBox<'a>> = Vec::new();
    let mut i: usize = 0;
    assert(boxes_view(children@) =~= Seq::<LayoutView>::empty());
    while i < style_node.children.len()
        invariant
            i <= style_node.children.len(),
            is_block == (style_node@.display() == Display::Block),
            boxes_view(children@) == child_boxes(is_block, style_node@.children, i as int),
        decreases style_node.children.len() - i,
    {
        let child = &style_node.children[i];
        let ghost before = boxes_view(children@);
        assert(style_node@.children[i as int] == child@);
        assert(child_boxes(is_block, style_node@.children, i + 1) == attach(
            is_block,
            before,
            child@,
        ));
        match child.display() {
            Display::Omitted => {
                assert(attach(is_block, before, child@) == before);
            },
            Display::Block => {
                let b = build_layout_tree(child);
                children.push(b);
                assert(boxes_view(children@) =~= before.push(b@));
                assert(attach(is_block, before, child@) == before.push(b@));
            },
            Display::Inline => {
                let b = build_layout_tree(child);
                let n = children.len();
                if !is_block {
                    children.push(b);
                    assert(boxes_view(children@) =~= before.push(b@));
                } else if n > 0 && is_anonymous(&children[n - 1]) {
                    let mut last = children.pop().unwrap();
                    let ghost kids = last@.children;
                    last.children.push(b);
                    assert(last@.children =~= kids.push(b@));
                    children.push(last);
                    assert(boxes_view(children@) =~= before.update(
                        n - 1,
                        LayoutView { children: kids.push(b@), ..before.last() },
                    ));
                } else {
                    let mut container = LayoutBox::new(BoxType::AnonymousBlock);
                    container.children.push(b);
                    assert(container@.children =~= seq![b@]);
                    children.push(container);
                    assert(boxes_view(children@) =~= before.push(container@));
                }
            },
        }
        i = i + 1;
    }
    let r = LayoutBox { dimensions: Dimensions::default(), box_type, children };
    assert(r@.children =~= boxes_view(children@));
    r
}

/// Whether the box is an anonymous block.
fn is_anonymous(b: &LayoutBox) -> (r: bool)
    ensures
        r == (b@.kind is Anonymous),
{
    match b.box_type {
        BoxType::AnonymousBlock => true,
        _ => false,
    }
}


// ---------------------------------------------------------------------------
// Geometry

/// The keyword `auto`.
pub open spec fn auto() -> ValueView {
    ValueView::Keyword("auto"@)
}

/// The length 0.
pub open spec fn zero_length() -> ValueView {
    ValueView::Length(0, Unit::Px)
}

/// The horizontal measures of a block.
pub ghost struct WidthsView {
    pub width: int,
    pub margin_left: int,
    pub margin_right: int,
    pub border_left: int,
    pub border_right: int,
    pub padding_left: int,
    pub padding_right: int,
}

impl WidthsView {
    /// The width of the margin box.
    pub open spec fn total(self) -> int {
        self.margin_left + self.border_left + self.padding_left + self.width + self.padding_right
            + self.border_right + self.margin_right
    }
}

/// The horizontal measures of a block in a containing block of the given
/// width.
///
/// The seven measures are read from the style; what is missing or no length
/// counts 0, and a missing `width` is `auto`. Where the block has a width and
/// the seven together exceed the containing width, `auto` margins become 0.
/// The underflow is the containing width less the seven. It goes to the
/// right margin where nothing is `auto`, and to the one margin that is
/// `auto`. Where both margins are `auto`, each takes half of it: the left
/// one the half rounded down to a thousandth, the right one the rest. Where
/// the width is `auto`, it takes the underflow; a width that would be
/// negative is 0, and the right margin takes what is below.
pub open spec fn block_widths(style: StyledView, containing_width: int) -> WidthsView {
    let width = match style.value("width"@) {
        Some(v) => v,
        None => auto(),
    };
    let margin_left = style.lookup("margin-left"@, "margin"@, zero_length());
    let margin_right = style.lookup("margin-right"@, "margin"@, zero_length());
    let border_left = style.lookup("border-left-width"@, "border-width"@, zero_length()).to_px();
    let border_right = style.lookup("border-right-width"@, "border-width"@, zero_length()).to_px();
    let padding_left = style.lookup("padding-left"@, "padding"@, zero_length()).to_px();
    let padding_right = style.lookup("padding-right"@, "padding"@, zero_length()).to_px();
    let total = margin_left.to_px() + margin_right.to_px() + border_left + border_right
        + padding_left + padding_right + width.to_px();
    let squeezed = width != auto() && total > containing_width;
    let left_auto = margin_left == auto() && !squeezed;
    let right_auto = margin_right == auto() && !squeezed;
    let underflow = containing_width - total;
    let rest = WidthsView {
        width: width.to_px(),
        margin_left: margin_left.to_px(),
        margin_right: margin_right.to_px(),
        border_left,
        border_right,
        padding_left,
        padding_right,
    };
    if width == auto() {
        if underflow >= 0 {
            WidthsView { width: underflow, ..rest }
        } else {
            WidthsView { width: 0, margin_right: margin_right.to_px() + underflow, ..rest }
        }
    } else if left_auto && right_auto {
        WidthsView { margin_left: underflow / 2, margin_right: underflow - underflow / 2, ..rest }
    } else if left_auto {
        WidthsView { margin_left: underflow, ..rest }
    } else if right_auto {
        WidthsView { margin_right: underflow, ..rest }
    } else {
        WidthsView { margin_right: margin_right.to_px() + underflow, ..rest }
    }
}

/// The geometry of a block in the containing block `containing`, whose
/// height is the height of what was laid out in it before: the edges as the
/// style says, the content below what was laid out before. The content height
/// is still 0.
pub open spec fn block_frame(style: StyledView, containing: RectView) -> DimensionsView {
    let w = block_widths(style, containing.width);
    let margin_top = style.lookup("margin-top"@, "margin"@, zero_length()).to_px();
    let margin_bottom = style.lookup("margin-bottom"@, "margin"@, zero_length()).to_px();
    let border_top = style.lookup("border-top-width"@, "border-width"@, zero_length()).to_px();
    let border_bottom = style.lookup("border-bottom-width"@, "border-width"@, zero_length()).to_px();
    let padding_top = style.lookup("padding-top"@, "padding"@, zero_length()).to_px();
    let padding_bottom = style.lookup("padding-bottom"@, "padding"@, zero_length()).to_px();
    DimensionsView {
        content: RectView {
            x: containing.x + w.margin_left + w.border_left + w.padding_left,
            y: containing.y + containing.height + margin_top + border_top + padding_top,
            width: w.width,
            height: 0,
        },
        padding: EdgesView {
            left: w.padding_left,
            right: w.padding_right,
            top: padding_top,
            bottom: padding_bottom,
        },
        border: EdgesView {
            left: w.border_left,
            right: w.border_right,
            top: border_top,
            bottom: border_bottom,
        },
        margin: EdgesView {
            left: w.margin_left,
            right: w.margin_right,
            top: margin_top,
            bottom: margin_bottom,
        },
    }
}

/// The geometry of a box that is no block: no edges, as wide as the
/// containing block, below what was laid out before.
pub open spec fn plain_frame(containing: RectView) -> DimensionsView {
    DimensionsView {
        content: RectView {
            x: containing.x,
            y: containing.y + containing.height,
            width: containing.width,
            height: 0,
        },
        padding: EdgesView::zero(),
        border: EdgesView::zero(),
        margin: EdgesView::zero(),
    }
}

/// The geometry of a box before its height is known.
pub open spec fn frame_of(kind: BoxKind, containing: RectView) -> DimensionsView {
    match kind {
        BoxKind::Block(style) => block_frame(style, containing),
        _ => plain_frame(containing),
    }
}

/// Whether a text is white space throughout.
pub open spec fn is_blank(text: Seq<char>) -> bool {
    forall|i: int| 0 <= i < text.len() ==> is_whitespace(#[trigger] text[i])
}

/// The height that a box has of its own: one line for an inline box of a
/// text that is not blank.
pub open spec fn own_height(kind: BoxKind) -> int {
    match kind {
        BoxKind::Inline(style) => match style.node.node_type {
            NodeTypeView::Text(text) => if is_blank(text) {
                0
            } else {
                LINE_HEIGHT as int
            },
            _ => 0,
        },
        _ => 0,
    }
}

/// The height that the style of a block gives it, where `height` is a length.
pub open spec fn explicit_height(kind: BoxKind) -> Option<int> {
    match kind {
        BoxKind::Block(style) => match style.value("height"@) {
            Some(ValueView::Length(h, Unit::Px)) => Some(h as int),
            _ => None,
        },
        _ => None,
    }
}

/// The height that the boxes take one below the other: the sum of the
/// heights of their margin boxes.
pub open spec fn flow_height(boxes: Seq<LayoutView>) -> int
    decreases boxes.len(),
{
    if boxes.len() == 0 {
        0
    } else {
        flow_height(boxes.drop_last()) + boxes.last().dimensions.margin_box().height
    }
}

/// The first `n` of the boxes `children`, laid out one below the other in the
/// content rectangle `content` of their parent.
pub open spec fn laid_out_children(children: Seq<LayoutView>, content: RectView, n: int) -> Seq<
    LayoutView,
>
    decreases children, n,
{
    if n <= 0 || n > children.len() {
        Seq::empty()
    } else {
        let before = laid_out_children(children, content, n - 1);
        before.push(
            laid_out(children[n - 1], RectView { height: flow_height(before), ..content }),
        )
    }
}

/// The box `tree` laid out in a containing block with the content rectangle
/// `containing`, whose height is the height of what was laid out in it
/// before.
///
/// The content height of a box is the height that its style gives it; without
/// one, the flow height of its children and its own height.
pub open spec fn laid_out(tree: LayoutView, containing: RectView) -> LayoutView
    decreases tree, 0int,
{
    let frame = frame_of(tree.kind, containing);
    let children = laid_out_children(tree.children, frame.content, tree.children.len() as int);
    let height = match explicit_height(tree.kind) {
        Some(h) => h,
        None => flow_height(children) + own_height(tree.kind),
    };
    LayoutView {
        dimensions: DimensionsView { content: RectView { height, ..frame.content }, ..frame },
        kind: tree.kind,
        children,
    }
}

/// The layout of a styled tree in a viewport: the tree of boxes of the root,
/// laid out in the content rectangle of the viewport from its top.
pub open spec fn layout_of(root: StyledView, viewport: DimensionsView) -> LayoutView {
    laid_out(box_tree(root), RectView { height: 0, ..viewport.content })
}

/// The first boxes of a list are laid out as they are without the rest.
pub proof fn lemma_laid_out_children_prefix(
    children: Seq<LayoutView>,
    content: RectView,
    n: int,
    i: int,
)
    requires
        0 <= i < n <= children.len(),
    ensures
        laid_out_children(children, content, n).len() == n,
        laid_out_children(children, content, n)[i] == laid_out(
            children[i],
            RectView { height: flow_height(laid_out_children(children, content, i)), ..content },
        ),
    decreases n,
{
    lemma_laid_out_children_len(children, content, n);
    lemma_laid_out_children_len(children, content, n - 1);
    if i < n - 1 {
        lemma_laid_out_children_prefix(children, content, n - 1, i);
    }
}

/// As many boxes are laid out as were asked for.
pub proof fn lemma_laid_out_children_len(children: Seq<LayoutView>, content: RectView, n: int)
    requires
        0 <= n <= children.len(),
    ensures
        laid_out_children(children, content, n).len() == n,
    decreases n,
{
    if n > 0 {
        lemma_laid_out_children_len(children, content, n - 1);
    }
}

/// The width that a box takes in its container: its content width and the
/// edges to its left and right.
pub open spec fn outer_width(d: DimensionsView) -> int {
    d.margin.left + d.border.left + d.padding.left + d.content.width + d.padding.right
        + d.border.right + d.margin.right
}

/// The seven horizontal measures of a block add up to the width of its
/// containing block, whatever its style.
pub proof fn lemma_block_widths_total(style: StyledView, containing_width: int)
    ensures
        block_widths(style, containing_width).total() == containing_width,
{
}

/// Every box of the tree takes the whole content width of the box that
/// contains it, and the root takes `containing_width`.
pub open spec fn widths_conserved(b: LayoutView, containing_width: int) -> bool
    decreases b,
{
    &&& outer_width(b.dimensions) == containing_width
    &&& forall|i: int|
        0 <= i < b.children.len() ==> widths_conserved(
            #[trigger] b.children[i],
            b.dimensions.content.width,
        )
}

/// Width conservation: in a tree that was laid out, margins, borders,
/// padding and content width of every box add up to the content width of its
/// containing block.
pub proof fn lemma_width_conservation(tree: LayoutView, containing: RectView)
    ensures
        widths_conserved(laid_out(tree, containing), containing.width),
    decreases tree,
{
    let frame = frame_of(tree.kind, containing);
    let out = laid_out(tree, containing);
    let n = tree.children.len() as int;
    match tree.kind {
        BoxKind::Block(style) => {
            lemma_block_widths_total(style, containing.width);
        },
        _ => {},
    }
    lemma_laid_out_children_len(tree.children, frame.content, n);
    assert forall|i: int| 0 <= i < out.children.len() implies widths_conserved(
        #[trigger] out.children[i],
        out.dimensions.content.width,
    ) by {
        lemma_laid_out_children_prefix(tree.children, frame.content, n, i);
        lemma_width_conservation(
            tree.children[i],
            RectView {
                height: flow_height(laid_out_children(tree.children, frame.content, i)),
                ..frame.content
            },
        );
    }
}

/// The content height of every box of the tree is the height that its style
/// gives it; without one, the sum of the heights of the margin boxes of its
/// children, and for the box of a text its line.
pub open spec fn heights_composed(b: LayoutView) -> bool
    decreases b,
{
    &&& b.dimensions.content.height == match explicit_height(b.kind) {
        Some(h) => h,
        None => flow_height(b.children) + own_height(b.kind),
    }
    &&& forall|i: int| 0 <= i < b.children.len() ==> heights_composed(#[trigger] b.children[i])
}

/// Height composition: in a tree that was laid out, the content height of a
/// block without a `height` of its own is the sum of the heights of the
/// margin boxes of its children.
pub proof fn lemma_height_composition(tree: LayoutView, containing: RectView)
    ensures
        heights_composed(laid_out(tree, containing)),
        tree.kind is Block && explicit_height(tree.kind) is None ==> laid_out(
            tree,
            containing,
        ).dimensions.content.height == flow_height(laid_out(tree, containing).children),
    decreases tree,
{
    let frame = frame_of(tree.kind, containing);
    let out = laid_out(tree, containing);
    let n = tree.children.len() as int;
    lemma_laid_out_children_len(tree.children, frame.content, n);
    assert forall|i: int| 0 <= i < out.children.len() implies heights_composed(
        #[trigger] out.children[i],
    ) by {
        lemma_laid_out_children_prefix(tree.children, frame.content, n, i);
        lemma_height_composition(
            tree.children[i],
            RectView {
                height: flow_height(laid_out_children(tree.children, frame.content, i)),
                ..frame.content
            },
        );
    }
}

/// Every box of the tree lies below what was laid out before it in its
/// container: its margin box starts where the margin boxes of the boxes
/// before it end.
pub proof fn lemma_children_stack(tree: LayoutView, containing: RectView, i: int)
    requires
        0 <= i < tree.children.len(),
    ensures
        ({
            let out = laid_out(tree, containing);
            out.children.len() == tree.children.len() && out.children[i].dimensions.margin_box().y
                == out.dimensions.content.y + flow_height(out.children.take(i))
        }),
{
    let frame = frame_of(tree.kind, containing);
    let n = tree.children.len() as int;
    let out = laid_out(tree, containing);
    lemma_laid_out_children_len(tree.children, frame.content, n);
    lemma_laid_out_children_prefix(tree.children, frame.content, n, i);
    lemma_laid_out_children_take(tree.children, frame.content, n, i);
}

/// The boxes laid out first are the first of the boxes laid out.
pub proof fn lemma_laid_out_children_take(
    children: Seq<LayoutView>,
    content: RectView,
    n: int,
    i: int,
)
    requires
        0 <= i <= n <= children.len(),
    ensures
        laid_out_children(children, content, n).take(i) == laid_out_children(children, content, i),
    decreases n,
{
    lemma_laid_out_children_len(children, content, n);
    lemma_laid_out_children_len(children, content, i);
    if i == n {
        assert(laid_out_children(children, content, n).take(i) =~= laid_out_children(
            children,
            content,
            n,
        ));
    } else {
        lemma_laid_out_children_take(children, content, n - 1, i);
        assert(laid_out_children(children, content, n).take(i) =~= laid_out_children(
            children,
            content,
            n - 1,
        ).take(i));
    }
}

/// The largest height that the boxes laid out so far can have taken.
const MAX_FLOW: i128 = 129_127_208_515_966_861_305_000_000_000_000_000_000;

fn to_coordinate(v: i128) -> (r: Option<i64>)
    ensures
        match r {
            Some(c) => c == v && in_range(v as int),
            None => !in_range(v as int),
        },
{
    if -(MAX_COORDINATE as i128) <= v && v <= MAX_COORDINATE as i128 {
        Some(v as i64)
    } else {
        None
    }
}

/// Whether a text is white space throughout.
pub fn blank(text: &str) -> (b: bool)
    ensures
        b == is_blank(text@),
{
    let chars = crate::text::chars_of(text);
    let end = crate::text::scan(&chars, 0, CharClass::Whitespace);
    proof {
        crate::text::lemma_run_end(chars@, 0, CharClass::Whitespace);
    }
    end == chars.len()
}

/// The geometry of a block before its height is known.
fn calculate_block_frame(style: &StyledNode, x: i64, y: i64, width: i64, flow: i128) -> (r: Result<
    Dimensions,
    LayoutError,
>)
    requires
        -MAX_FLOW <= flow <= MAX_FLOW,
    ensures
        match r {
            Ok(d) => d@ == block_frame(
                style@,
                RectView { x: x as int, y: y as int, width: width as int, height: flow as int },
            ) && d@.in_range(),
            Err(_) => !block_frame(
                style@,
                RectView { x: x as int, y: y as int, width: width as int, height: flow as int },
            ).in_range(),
        },
{
    let auto = Value::Keyword("auto".to_owned());
    let zero = Value::Length(0, Unit::Px);
    let width_value = match style.value("width") {
        Some(v) => v,
        None => auto,
    };
    let margin_left_value = style.lookup("margin-left", "margin", &zero);
    let margin_right_value = style.lookup("margin-right", "margin", &zero);
    let border_left = style.lookup("border-left-width", "border-width", &zero).to_px() as i128;
    let border_right = style.lookup("border-right-width", "border-width", &zero).to_px() as i128;
    let padding_left = style.lookup("padding-left", "padding", &zero).to_px() as i128;
    let padding_right = style.lookup("padding-right", "padding", &zero).to_px() as i128;
    let margin_top = style.lookup("margin-top", "margin", &zero).to_px() as i128;
    let margin_bottom = style.lookup("margin-bottom", "margin", &zero).to_px() as i128;
    let border_top = style.lookup("border-top-width", "border-width", &zero).to_px() as i128;
    let border_bottom = style.lookup("border-bottom-width", "border-width", &zero).to_px() as i128;
    let padding_top = style.lookup("padding-top", "padding", &zero).to_px() as i128;
    let padding_bottom = style.lookup("padding-bottom", "padding", &zero).to_px() as i128;

    let width_auto = width_value.is_keyword("auto");
    let total: i128 = margin_left_value.to_px() as i128 + margin_right_value.to_px() as i128
        + border_left + border_right + padding_left + padding_right + width_value.to_px() as i128;
    let squeezed = !width_auto && total > width as i128;
    let left_auto = margin_left_value.is_keyword("auto") && !squeezed;
    let right_auto = margin_right_value.is_keyword("auto") && !squeezed;
    let underflow: i128 = width as i128 - total;

    let mut content_width: i128 = width_value.to_px() as i128;
    let mut margin_left: i128 = margin_left_value.to_px() as i128;
    let mut margin_right: i128 = margin_right_value.to_px() as i128;
    if width_auto {
        if underflow >= 0 {
            content_width = underflow;
        } else {
            content_width = 0;
            margin_right = margin_right + underflow;
        }
    } else if left_auto && right_auto {
        margin_left = underflow / 2;
        margin_right = underflow - underflow / 2;
    } else if left_auto {
        margin_left = underflow;
    } else if right_auto {
        margin_right = underflow;
    } else {
        margin_right = margin_right + underflow;
    }
    let content_x: i128 = x as i128 + margin_left + border_left + padding_left;
    let content_y: i128 = y as i128 + flow + margin_top + border_top + padding_top;

    let content = match (to_coordinate(content_x), to_coordinate(content_y), to_coordinate(content_width)) {
        (Some(x), Some(y), Some(width)) => Rect { x, y, width, height: 0 },
        _ => {
            return Err(LayoutError::OutOfRange);
        },
    };
    let padding = match (
        to_coordinate(padding_left),
        to_coordinate(padding_right),
        to_coordinate(padding_top),
        to_coordinate(padding_bottom),
    ) {
        (Some(left), Some(right), Some(top), Some(bottom)) => EdgeSizes { left, right, top, bottom },
        _ => {
            return Err(LayoutError::OutOfRange);
        },
    };
    let border = match (
        to_coordinate(border_left),
        to_coordinate(border_right),
        to_coordinate(border_top),
        to_coordinate(border_bottom),
    ) {
        (Some(left), Some(right), Some(top), Some(bottom)) => EdgeSizes { left, right, top, bottom },
        _ => {
            return Err(LayoutError::OutOfRange);
        },
    };
    let margin = match (
        to_coordinate(margin_left),
        to_coordinate(margin_right),
        to_coordinate(margin_top),
        to_coordinate(margin_bottom),
    ) {
        (Some(left), Some(right), Some(top), Some(bottom)) => EdgeSizes { left, right, top, bottom },
        _ => {
            return Err(LayoutError::OutOfRange);
        },
    };
    Ok(Dimensions { content, padding, border, margin })
}

/// The geometry of a box that is no block, before its height is known.
fn calculate_plain_frame(x: i64, y: i64, width: i64, flow: i128) -> (r: Result<
    Dimensions,
    LayoutError,
>)
    requires
        -MAX_FLOW <= flow <= MAX_FLOW,
    ensures
        match r {
            Ok(d) => d@ == plain_frame(
                RectView { x: x as int, y: y as int, width: width as int, height: flow as int },
            ) && d@.in_range(),
            Err(_) => !plain_frame(
                RectView { x: x as int, y: y as int, width: width as int, height: flow as int },
            ).in_range(),
        },
{
    let content = match (
        to_coordinate(x as i128),
        to_coordinate(y as i128 + flow),
        to_coordinate(width as i128),
    ) {
        (Some(x), Some(y), Some(width)) => Rect { x, y, width, height: 0 },
        _ => {
            return Err(LayoutError::OutOfRange);
        },
    };
    Ok(
        Dimensions {
            content,
            padding: EdgeSizes::default(),
            border: EdgeSizes::default(),
            margin: EdgeSizes::default(),
        },
    )
}

/// The height that a box has of its own.
fn calculate_own_height(box_type: &BoxType) -> (h: i64)
    ensures
        h == own_height(box_type@),
{
    match box_type {
        BoxType::InlineNode(style) => match &style.node.node_type {
            NodeType::Text(text) => if blank(text.as_str()) {
                0
            } else {
                LINE_HEIGHT
            },
            _ => 0,
        },
        _ => 0,
    }
}

/// The height that the style of a block gives it.
fn calculate_explicit_height(box_type: &BoxType) -> (h: Option<i64>)
    ensures
        match h {
            Some(v) => explicit_height(box_type@) == Some(v as int),
            None => explicit_height(box_type@) is None,
        },
{
    match box_type {
        BoxType::BlockNode(style) => match style.value("height") {
            Some(Value::Length(h, Unit::Px)) => Some(h),
            _ => None,
        },
        _ => None,
    }
}

/// Lays out a styled tree in a viewport. The viewport gives the position and
/// the width; its height is no constraint.
pub fn layout_tree<'a>(node: &'a StyledNode<'a>, containing_block: Dimensions) -> (r: Result<
    LayoutBox<'a>,
    LayoutError,
>)
    requires
        node@.display() == Display::Block,
    ensures
        match r {
            Ok(root) => root@ == layout_of(node@, containing_block@) && root@.in_range(),
            Err(_) => !layout_of(node@, containing_block@).in_range(),
        },
{
    let root = build_layout_tree(node);
    layout(
        root,
        containing_block.content.x,
        containing_block.content.y,
        containing_block.content.width,
        0,
    )
}

/// Lays out a box in a containing block whose content rectangle starts at
/// (`x`, `y`) and is `width` wide, below the `flow` that was laid out before.
fn layout<'a>(tree: LayoutBox<'a>, x: i64, y: i64, width: i64, flow: i128) -> (r: Result<
    LayoutBox<'a>,
    LayoutError,
>)
    requires
        -MAX_FLOW <= flow <= MAX_FLOW,
    ensures
        match r {
            Ok(out) => out@ == laid_out(
                tree@,
                RectView { x: x as int, y: y as int, width: width as int, height: flow as int },
            ) && out@.in_range(),
            Err(_) => !laid_out(
                tree@,
                RectView { x: x as int, y: y as int, width: width as int, height: flow as int },
            ).in_range(),
        },
    decreases tree,
{
    let ghost containing = RectView {
        x: x as int,
        y: y as int,
        width: width as int,
        height: flow as int,
    };
    let ghost ideal = laid_out(tree@, containing);
    let ghost kids = tree@.children;
    let LayoutBox { dimensions: _, box_type, children } = tree;
    let frame = match &box_type {
        BoxType::BlockNode(style) => calculate_block_frame(style, x, y, width, flow),
        _ => calculate_plain_frame(x, y, width, flow),
    };
    let mut dimensions = match frame {
        Ok(d) => d,
        Err(e) => {
            return Err(e);
        },
    };
    let ghost content = dimensions@.content;
    let mut out: Vec<LayoutBox<'a>> = Vec::new();
    let mut below: i128 = 0;
    let n = children.len();
    assert(boxes_view(out@) =~= Seq::<LayoutView>::empty());
    for child in it: children
        invariant
            it.seq().len() == n,
            it.seq() == tree.children@,
            kids == boxes_view(it.seq()),
            kids.len() == n,
            out.len() == it.index(),
            boxes_view(out@) == laid_out_children(kids, content, it.index() as int),
            below == flow_height(boxes_view(out@)),
            -7_000_000_000_000_000_000 * it.index() <= below <= 7_000_000_000_000_000_000
                * it.index(),
            forall|j: int| 0 <= j < out.len() ==> (#[trigger] out@[j])@.in_range(),
            dimensions@.content == content,
            content.in_range(),
            ideal.children == laid_out_children(kids, content, n as int),
            ideal == laid_out(
                tree@,
                RectView { x: x as int, y: y as int, width: width as int, height: flow as int },
            ),
    {
        let ghost i = it.index() as int;
        let ghost before = boxes_view(out@);
        assert(kids[i] == child@);
        proof {
            lemma_laid_out_children_prefix(kids, content, n as int, i);
        }
        assert(i < n <= usize::MAX);
        assert(i <= 0xffff_ffff_ffff_ffff);
        assert(-MAX_FLOW <= below <= MAX_FLOW);
        let c = match layout(
            child,
            dimensions.content.x,
            dimensions.content.y,
            dimensions.content.width,
            below,
        ) {
            Ok(c) => c,
            Err(e) => {
                assert(!ideal.children[i].in_range());
                return Err(e);
            },
        };
        let h = c.dimensions.margin_box().height;
        below = below + h as i128;
        out.push(c);
        proof {
            assert(boxes_view(out@) =~= before.push(c@));
            assert(boxes_view(out@).drop_last() =~= before);
        }
    }
    let height: i128 = match calculate_explicit_height(&box_type) {
        Some(h) => h as i128,
        None => below + calculate_own_height(&box_type) as i128,
    };
    match to_coordinate(height) {
        Some(h) => {
            dimensions.content.height = h;
            let r = LayoutBox { dimensions, box_type, children: out };
            assert(r@.children =~= boxes_view(out@));
            assert(r@ == ideal);
            Ok(r)
        },
        None => Err(LayoutError::OutOfRange),
    }
}

} // verus!
