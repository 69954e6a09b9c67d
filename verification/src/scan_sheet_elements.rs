//! What is drawn on a sheet, and where.
//!
//! Lengths and positions are whole sheet units.  The sheet is a square of
//! `SHEET_SIDE` units a side, with its origin at the top left; this is the
//! coarsest grid on which every length below is a whole number.

use crate::image::Color;
use vstd::prelude::*;

verus! {

/// The sheet's side, in sheet units.
pub const SHEET_SIDE: u128 = 7000;

/// The short side of a bar: a hundredth of the sheet's side.
pub const BAR_WIDTH: u128 = 70;

/// The long side of a bar: three hundredths of the sheet's side.
pub const BAR_LENGTH: u128 = 210;

/// The radius of the white disk inside an alignment ring: a twentieth of the
/// sheet's side.
pub const ALIGNER_INNER_RADIUS: u128 = 350;

/// The radius of an alignment ring: a fourteenth of the sheet's side.
pub const ALIGNER_OUTER_RADIUS: u128 = 500;

/// The height of the title's letters.
pub const TITLE_FONT_SIZE: u128 = 910;

/// The height of the letters of a field's label.
pub const FIELD_FONT_SIZE: u128 = 350;

/// The threshold below which the thresholder takes a channel for dark.
pub const DARK_THRESHOLD: u8 = 110;

/// The colour of what is printed as a guide: a blue so light that the
/// thresholder does not see it.
pub open spec fn template_blue() -> Color {
    Color { r: 0xCF, g: 0xE2, b: 0xF3 }
}

/// The colour of what is printed as a guide.  None of its channels is below
/// the dark threshold.
pub fn template_color() -> (color: Color)
    ensures
        color == template_blue(),
        !color.darker_than(DARK_THRESHOLD),
        color.r > DARK_THRESHOLD && color.g > DARK_THRESHOLD && color.b > DARK_THRESHOLD,
{
    Color::from_rgb(0xCF, 0xE2, 0xF3)
}

/// The kinds of things on a sheet.
#[derive(Clone, Debug, PartialEq, Eq)]
pub enum ElementKind {
    Aligner,
    HorizontalBar,
    VerticalBar,
    FieldDescriptor(String),
    Title(String),
}

/// A kind of thing on a sheet, with its text as a sequence of characters.
pub enum KindView {
    Aligner,
    HorizontalBar,
    VerticalBar,
    FieldDescriptor(Seq<char>),
    Title(Seq<char>),
}

impl View for ElementKind {
    type V = KindView;

    open spec fn view(&self) -> KindView {
        match self {
            ElementKind::Aligner => KindView::Aligner,
            ElementKind::HorizontalBar => KindView::HorizontalBar,
            ElementKind::VerticalBar => KindView::VerticalBar,
            ElementKind::FieldDescriptor(text) => KindView::FieldDescriptor(text@),
            ElementKind::Title(text) => KindView::Title(text@),
        }
    }
}

impl ElementKind {
    pub fn is_title(&self) -> (title: bool)
        ensures
            title == (self@ is Title),
    {
        match *self {
            ElementKind::Title(_) => true,
            _ => false,
        }
    }
}

/// One thing on a sheet, with the position of its top left corner.
#[derive(Clone, Debug, PartialEq, Eq)]
pub struct Element {
    pub x: u128,
    pub y: u128,
    pub kind: ElementKind,
}

/// One thing on a sheet.
pub struct ElementView {
    pub x: u128,
    pub y: u128,
    pub kind: KindView,
}

impl View for Element {
    type V = ElementView;

    open spec fn view(&self) -> ElementView {
        ElementView { x: self.x, y: self.y, kind: self.kind@ }
    }
}

/// What an element looks like on paper.
#[derive(Clone, Debug, PartialEq, Eq)]
pub enum Shape {
    /// A disk of radius `outer` around `(cx, cy)` in the colour `fill`, with
    /// a disk of radius `inner` in the colour `hole` on it.
    Ring { cx: u128, cy: u128, outer: u128, inner: u128, fill: Color, hole: Color },
    /// A filled rectangle with its top left corner at `(x, y)`.
    Rectangle { x: u128, y: u128, width: u128, height: u128, fill: Color },
    /// Monospaced text that starts at `x` and stands on the line `baseline`.
    Text { x: u128, baseline: u128, font_size: u128, text: String, fill: Color },
}

/// What an element looks like on paper.
pub enum ShapeView {
    Ring { cx: int, cy: int, outer: int, inner: int, fill: Color, hole: Color },
    Rectangle { x: int, y: int, width: int, height: int, fill: Color },
    Text { x: int, baseline: int, font_size: int, text: Seq<char>, fill: Color },
}

impl View for Shape {
    type V = ShapeView;

    open spec fn view(&self) -> ShapeView {
        match self {
            Shape::Ring { cx, cy, outer, inner, fill, hole } => ShapeView::Ring {
                cx: *cx as int,
                cy: *cy as int,
                outer: *outer as int,
                inner: *inner as int,
                fill: *fill,
                hole: *hole,
            },
            Shape::Rectangle { x, y, width, height, fill } => ShapeView::Rectangle {
                x: *x as int,
                y: *y as int,
                width: *width as int,
                height: *height as int,
                fill: *fill,
            },
            Shape::Text { x, baseline, font_size, text, fill } => ShapeView::Text {
                x: *x as int,
                baseline: *baseline as int,
                font_size: *font_size as int,
                text: text@,
                fill: *fill,
            },
        }
    }
}

impl ElementView {
    /// The shape of this element: a black ring with a white hole around the
    /// point one outer radius right of and below its corner; a rectangle of
    /// a bar's size in the template's colour; or text in the template's
    /// colour that stands one letter's height below its corner.
    pub open spec fn shape_of(self) -> ShapeView {
        match self.kind {
            KindView::Aligner => ShapeView::Ring {
                cx: self.x + ALIGNER_OUTER_RADIUS,
                cy: self.y + ALIGNER_OUTER_RADIUS,
                outer: ALIGNER_OUTER_RADIUS as int,
                inner: ALIGNER_INNER_RADIUS as int,
                fill: Color { r: 0, g: 0, b: 0 },
                hole: Color { r: 0xff, g: 0xff, b: 0xff },
            },
            KindView::HorizontalBar => ShapeView::Rectangle {
                x: self.x as int,
                y: self.y as int,
                width: BAR_LENGTH as int,
                height: BAR_WIDTH as int,
                fill: template_blue(),
            },
            KindView::VerticalBar => ShapeView::Rectangle {
                x: self.x as int,
                y: self.y as int,
                width: BAR_WIDTH as int,
                height: BAR_LENGTH as int,
                fill: template_blue(),
            },
            KindView::FieldDescriptor(text) => ShapeView::Text {
                x: self.x as int,
                baseline: self.y + FIELD_FONT_SIZE,
                font_size: FIELD_FONT_SIZE as int,
                text,
                fill: template_blue(),
            },
            KindView::Title(text) => ShapeView::Text {
                x: self.x as int,
                baseline: self.y + TITLE_FONT_SIZE,
                font_size: TITLE_FONT_SIZE as int,
                text,
                fill: template_blue(),
            },
        }
    }
}

impl Element {
    /// A copy of the element.
    pub fn clone_element(&self) -> (copy: Element)
        ensures
            copy@ == self@,
    {
        let kind = match &self.kind {
            ElementKind::Aligner => ElementKind::Aligner,
            ElementKind::HorizontalBar => ElementKind::HorizontalBar,
            ElementKind::VerticalBar => ElementKind::VerticalBar,
            ElementKind::FieldDescriptor(text) => ElementKind::FieldDescriptor(text.clone()),
            ElementKind::Title(text) => ElementKind::Title(text.clone()),
        };
        Element { x: self.x, y: self.y, kind }
    }

    /// Whether the element's shape has coordinates.
    pub open spec fn well_formed(&self) -> bool {
        self.x + TITLE_FONT_SIZE <= u128::MAX && self.y + TITLE_FONT_SIZE <= u128::MAX
    }

    /// How this element is drawn.
    pub fn shape(&self) -> (shape: Shape)
        requires
            self.well_formed(),
        ensures
            shape@ == self@.shape_of(),
    {
        match &self.kind {
            ElementKind::Aligner => Shape::Ring {
                cx: self.x + ALIGNER_OUTER_RADIUS,
                cy: self.y + ALIGNER_OUTER_RADIUS,
                outer: ALIGNER_OUTER_RADIUS,
                inner: ALIGNER_INNER_RADIUS,
                fill: Color::from_rgb(0, 0, 0),
                hole: Color::from_rgb(0xff, 0xff, 0xff),
            },
            ElementKind::HorizontalBar => Shape::Rectangle {
                x: self.x,
                y: self.y,
                width: BAR_LENGTH,
                height: BAR_WIDTH,
                fill: template_color(),
            },
            ElementKind::VerticalBar => Shape::Rectangle {
                x: self.x,
                y: self.y,
                width: BAR_WIDTH,
                height: BAR_LENGTH,
                fill: template_color(),
            },
            ElementKind::FieldDescriptor(text) => Shape::Text {
                x: self.x,
                baseline: self.y + FIELD_FONT_SIZE,
                font_size: FIELD_FONT_SIZE,
                text: text.clone(),
                fill: template_color(),
            },
            ElementKind::Title(text) => Shape::Text {
                x: self.x,
                baseline: self.y + TITLE_FONT_SIZE,
                font_size: TITLE_FONT_SIZE,
                text: text.clone(),
                fill: template_color(),
            },
        }
    }
}

/// The elements of a sheet, in the order in which they are drawn.
pub struct ScanSheetElements {
    pub elements: Vec<Element>,
}

impl View for ScanSheetElements {
    type V = Seq<ElementView>;

    open spec fn view(&self) -> Seq<ElementView> {
        Seq::new(self.elements@.len(), |i: int| self.elements@[i]@)
    }
}

impl ScanSheetElements {
    pub fn empty() -> (sheet: ScanSheetElements)
        ensures
            sheet@ == Seq::<ElementView>::empty(),
    {
        let sheet = ScanSheetElements { elements: Vec::new() };
        proof {
            assert(sheet@ =~= Seq::<ElementView>::empty());
        }
        sheet
    }

    pub fn add_element(&mut self, element: Element)
        ensures
            final(self)@ == old(self)@.push(element@),
    {
        self.elements.push(element);
        proof {
            assert(final(self)@ =~= old(self)@.push(element@));
        }
    }
}

} // verus!
