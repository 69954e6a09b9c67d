//! Where the fields of a page stand on the sheet.
//!
//! Positions are whole sheet units, as in the module of the sheet's
//! elements.

use crate::bars_found::BarsFound;
use crate::decode::{
    decode_entries, decoded, readable_digit, readable_entry, LayoutResult, LayoutResultError,
    LayoutResultOption,
};
use crate::scan_sheet_elements::{
    Element, ElementKind, ElementView, KindView, ScanSheetElements, ALIGNER_OUTER_RADIUS,
    BAR_LENGTH, BAR_WIDTH, FIELD_FONT_SIZE, SHEET_SIDE,
};
use vstd::prelude::*;
use vstd::utf8::encode_utf8;

verus! {

/// A letter of a label is three fifths as wide as it is tall.
pub const TEXT_WIDTH_NUMERATOR: u128 = 3;

pub const TEXT_WIDTH_DENOMINATOR: u128 = 5;

/// The width of one letter of a label.
pub const CHARACTER_WIDTH: u128 = 210;

/// The gap between the end of a label and the field's first bar.
pub const TEXT_GAP: u128 = 140;

/// Where the labels begin.
pub const FIELD_START_X: u128 = 1400;

/// How far the alignment rings stand from the sheet's edges.
pub const ALIGNER_DISTANCE_FROM_CORNER: u128 = 350;

/// A mark closer than this to a bar's centre sets the bar.
pub const BAR_DISTANCE_THRESHOLD: u128 = 70;

pub const TITLE_X: u128 = 2100;

pub const TITLE_Y: u128 = 350;

/// The gap between two digits of a display.
pub const DIGIT_GAP: u128 = 210;

/// The gap between two segments of a digit.
pub const BAR_SPACE: u128 = 21;

/// From the left edge of one digit to the left edge of the next.
pub const DIGIT_STRIDE: u128 = 560;

/// Where the first field stands.
pub const VERTICAL_FIELD_START: u128 = 2100;

/// From one field down to the next.
pub const VERTICAL_FIELD_SPACE: u128 = 700;

/// How far a checkbox's bar stands below its field's top.
pub const BAR_VERTICAL_OFFSET: u128 = 210;

pub const SEVEN_SEGMENT_DISPLAY_OFFSET: u128 = 0;

/// The most digits a display may have: a number of so many digits fits 64
/// bits whatever its digits are.
pub const MAX_DIGITS: u8 = 19;

/// How the constants above hang together.
pub proof fn lemma_constants()
    ensures
        CHARACTER_WIDTH * TEXT_WIDTH_DENOMINATOR == TEXT_WIDTH_NUMERATOR * FIELD_FONT_SIZE,
        DIGIT_GAP == BAR_LENGTH,
        DIGIT_STRIDE == 2 * BAR_WIDTH + BAR_LENGTH + DIGIT_GAP,
{
}

/// Where a segment of a digit stands, from the digit's top left corner, and
/// whether it lies flat.  The segments are counted from 0 for `a` to 6 for
/// `g`: `a`, `d` and `g` lie flat, top, bottom and middle; `b` and `c` stand
/// on the right, `f` and `e` on the left.
pub open spec fn segment_offset(k: int) -> (int, int, bool) {
    if k == 0 {
        (BAR_WIDTH + BAR_SPACE, 0, true)
    } else if k == 1 {
        (BAR_WIDTH + BAR_LENGTH + 2 * BAR_SPACE, BAR_WIDTH + BAR_SPACE, false)
    } else if k == 2 {
        (BAR_WIDTH + BAR_LENGTH + 2 * BAR_SPACE, 2 * BAR_WIDTH + BAR_LENGTH + 3 * BAR_SPACE, false)
    } else if k == 3 {
        (BAR_WIDTH + BAR_SPACE, 2 * BAR_WIDTH + 2 * BAR_LENGTH + 4 * BAR_SPACE, true)
    } else if k == 4 {
        (0, 2 * BAR_WIDTH + BAR_LENGTH + 3 * BAR_SPACE, false)
    } else if k == 5 {
        (0, BAR_WIDTH + BAR_SPACE, false)
    } else {
        (BAR_WIDTH + BAR_SPACE, BAR_WIDTH + BAR_LENGTH + 2 * BAR_SPACE, true)
    }
}

fn segment_offset_at(k: usize) -> (offset: (u128, u128, bool))
    requires
        k < 7,
    ensures
        offset.0 == segment_offset(k as int).0,
        offset.1 == segment_offset(k as int).1,
        offset.2 == segment_offset(k as int).2,
        offset.0 <= 322,
        offset.1 <= 644,
{
    if k == 0 {
        (BAR_WIDTH + BAR_SPACE, 0, true)
    } else if k == 1 {
        (BAR_WIDTH + BAR_LENGTH + 2 * BAR_SPACE, BAR_WIDTH + BAR_SPACE, false)
    } else if k == 2 {
        (BAR_WIDTH + BAR_LENGTH + 2 * BAR_SPACE, 2 * BAR_WIDTH + BAR_LENGTH + 3 * BAR_SPACE, false)
    } else if k == 3 {
        (BAR_WIDTH + BAR_SPACE, 2 * BAR_WIDTH + 2 * BAR_LENGTH + 4 * BAR_SPACE, true)
    } else if k == 4 {
        (0, 2 * BAR_WIDTH + BAR_LENGTH + 3 * BAR_SPACE, false)
    } else if k == 5 {
        (0, BAR_WIDTH + BAR_SPACE, false)
    } else {
        (BAR_WIDTH + BAR_SPACE, BAR_WIDTH + BAR_LENGTH + 2 * BAR_SPACE, true)
    }
}

/// The name of a bar within one layout.
#[derive(PartialEq, Eq, Hash, Clone, Copy, Debug, Structural)]
pub struct BarId {
    pub inner: u128,
}

/// Hands out the names of the bars, counting from zero.
pub struct BarIdGenerator {
    pub inner: u128,
}

impl BarIdGenerator {
    pub fn new() -> (generator: BarIdGenerator)
        ensures
            generator.inner == 0,
    {
        BarIdGenerator { inner: 0 }
    }

    pub fn next(&mut self) -> (id: BarId)
        requires
            old(self).inner < u128::MAX,
        ensures
            id.inner == old(self).inner,
            final(self).inner == old(self).inner + 1,
    {
        let ret = BarId { inner: self.inner };
        self.inner += 1;
        ret
    }
}

/// A bar of the template: its top left corner, whether it lies flat, and its
/// name.
#[derive(Clone, Copy, Debug, PartialEq, Eq, Structural)]
pub struct Bar {
    pub x: u128,
    pub y: u128,
    pub is_horizontal: bool,
    pub id: BarId,
}

impl Bar {
    /// The bar's far corner has coordinates.
    pub open spec fn well_formed(self) -> bool {
        self.x + BAR_LENGTH <= u128::MAX && self.y + BAR_LENGTH <= u128::MAX
    }

    /// The centre of the bar's rectangle.
    pub open spec fn center(self) -> (int, int) {
        if self.is_horizontal {
            (self.x + BAR_LENGTH / 2, self.y + BAR_WIDTH / 2)
        } else {
            (self.x + BAR_WIDTH / 2, self.y + BAR_LENGTH / 2)
        }
    }

    pub fn new(x: u128, y: u128, is_horizontal: bool, id_generator: &mut BarIdGenerator) -> (bar:
        Bar)
        requires
            old(id_generator).inner < u128::MAX,
        ensures
            bar == (Bar { x, y, is_horizontal, id: BarId { inner: old(id_generator).inner } }),
            final(id_generator).inner == old(id_generator).inner + 1,
    {
        let id = id_generator.next();
        Bar { x, y, is_horizontal, id }
    }

    /// The centre of the bar's rectangle: this is where the centre of a mark
    /// that fills the bar lies.
    pub fn mean_position(&self) -> (center: (u128, u128))
        requires
            self.well_formed(),
        ensures
            center.0 == self.center().0,
            center.1 == self.center().1,
    {
        let (base, height) = if self.is_horizontal {
            (BAR_LENGTH, BAR_WIDTH)
        } else {
            (BAR_WIDTH, BAR_LENGTH)
        };
        (self.x + base / 2, self.y + height / 2)
    }
}

/// The seven bars of one digit, `a` to `g`.
#[derive(Debug)]
pub struct SevenSegmentDigit {
    pub bars: Vec<Bar>,
}

impl View for SevenSegmentDigit {
    type V = Seq<Bar>;

    open spec fn view(&self) -> Seq<Bar> {
        self.bars@
    }
}

/// The digits of a number, most significant first.
#[derive(Debug)]
pub struct SevenSegmentDisplay {
    pub digits: Vec<SevenSegmentDigit>,
}

impl View for SevenSegmentDisplay {
    type V = Seq<Seq<Bar>>;

    open spec fn view(&self) -> Seq<Seq<Bar>> {
        Seq::new(self.digits@.len(), |d: int| self.digits@[d]@)
    }
}

/// What stands for one field on the sheet.
#[derive(Debug)]
pub enum LayoutEntry {
    Boolean(Bar),
    SevenSegmentDisplay(SevenSegmentDisplay),
}

/// The bars of one field.
pub enum EntryView {
    Boolean(Bar),
    SevenSegmentDisplay(Seq<Seq<Bar>>),
}

impl View for LayoutEntry {
    type V = EntryView;

    open spec fn view(&self) -> EntryView {
        match self {
            LayoutEntry::Boolean(bar) => EntryView::Boolean(*bar),
            LayoutEntry::SevenSegmentDisplay(display) => EntryView::SevenSegmentDisplay(display@),
        }
    }
}

/// The bar of the segment `k` of a digit whose top left corner is `(x, y)`
/// and whose first bar has the name `first_id`.
pub open spec fn segment_bar(x: int, y: int, first_id: int, k: int) -> Bar {
    Bar {
        x: (x + segment_offset(k).0) as u128,
        y: (y + segment_offset(k).1) as u128,
        is_horizontal: segment_offset(k).2,
        id: BarId { inner: (first_id + k) as u128 },
    }
}

/// The seven bars of a digit.
pub open spec fn digit_bars(x: int, y: int, first_id: int) -> Seq<Bar> {
    Seq::new(7, |k: int| segment_bar(x, y, first_id, k))
}

/// The digits of a display of `count` digits, set side by side from
/// `(x, y)` to the right.
pub open spec fn display_digits(x: int, y: int, count: int, first_id: int) -> Seq<Seq<Bar>> {
    Seq::new(count as nat, |d: int| digit_bars(x + DIGIT_STRIDE * d, y, first_id + 7 * d))
}

impl SevenSegmentDigit {
    pub fn new(x: u128, y: u128, id_generator: &mut BarIdGenerator) -> (digit: SevenSegmentDigit)
        requires
            x + 322 <= u128::MAX,
            y + 644 <= u128::MAX,
            old(id_generator).inner + 7 <= u128::MAX,
        ensures
            digit@ == digit_bars(x as int, y as int, old(id_generator).inner as int),
            final(id_generator).inner == old(id_generator).inner + 7,
    {
        let mut bars: Vec<Bar> = Vec::new();
        let mut i: usize = 0;
        while i < 7
            invariant
                i <= 7,
                x + 322 <= u128::MAX,
                y + 644 <= u128::MAX,
                old(id_generator).inner + 7 <= u128::MAX,
                id_generator.inner == old(id_generator).inner + i,
                bars@.len() == i,
                forall|k: int|
                    0 <= k < i ==> #[trigger] bars@[k] == segment_bar(
                        x as int,
                        y as int,
                        old(id_generator).inner as int,
                        k,
                    ),
            decreases 7 - i,
        {
            let (x_offset, y_offset, is_horizontal) = segment_offset_at(i);
            let bar = Bar::new(x + x_offset, y + y_offset, is_horizontal, id_generator);
            bars.push(bar);
            i += 1;
        }
        proof {
            assert(bars@ =~= digit_bars(x as int, y as int, old(id_generator).inner as int));
        }
        SevenSegmentDigit { bars }
    }
}

impl SevenSegmentDisplay {
    pub fn new(x: u128, y: u128, digit_count: u8, id_generator: &mut BarIdGenerator) -> (display:
        SevenSegmentDisplay)
        requires
            x + DIGIT_STRIDE * 256 <= u128::MAX,
            y + 644 <= u128::MAX,
            old(id_generator).inner + 7 * 256 <= u128::MAX,
        ensures
            display@ == display_digits(
                x as int,
                y as int,
                digit_count as int,
                old(id_generator).inner as int,
            ),
            final(id_generator).inner == old(id_generator).inner + 7 * digit_count,
    {
        let mut digits: Vec<SevenSegmentDigit> = Vec::new();
        let mut current_x = x;
        let mut i: u8 = 0;
        while i < digit_count
            invariant
                i <= digit_count,
                x + DIGIT_STRIDE * 256 <= u128::MAX,
                y + 644 <= u128::MAX,
                old(id_generator).inner + 7 * 256 <= u128::MAX,
                current_x == x + DIGIT_STRIDE * i,
                id_generator.inner == old(id_generator).inner + 7 * i,
                digits@.len() == i,
                forall|d: int|
                    0 <= d < i ==> (#[trigger] digits@[d])@ == digit_bars(
                        x + DIGIT_STRIDE * d,
                        y as int,
                        old(id_generator).inner + 7 * d,
                    ),
            decreases digit_count - i,
        {
            let digit = SevenSegmentDigit::new(current_x, y, id_generator);
            digits.push(digit);
            current_x += BAR_WIDTH + BAR_LENGTH + BAR_WIDTH + DIGIT_GAP;
            i += 1;
        }
        let display = SevenSegmentDisplay { digits };
        proof {
            assert(display@ =~= display_digits(
                x as int,
                y as int,
                digit_count as int,
                old(id_generator).inner as int,
            ));
        }
        display
    }
}

/// What a page is to hold: a title and fields, from the top down.
pub struct HighLevelPageDescription {
    pub document_title: String,
    pub fields: Vec<HighLevelField>,
}

/// A field: what it holds and the label that is printed before it.
pub struct HighLevelField {
    pub kind: HighLevelKind,
    pub descriptor: String,
}

/// A checkbox, or a number of so many digits.
#[derive(Clone, Copy, Debug, PartialEq, Eq, Structural)]
pub enum HighLevelKind {
    Boolean,
    SevenSegmentDisplay(u8),
}

/// Where the bars of a field with this label begin.
pub open spec fn field_x(descriptor: Seq<char>) -> int {
    FIELD_START_X + CHARACTER_WIDTH * encode_utf8(descriptor).len() + TEXT_GAP
}

/// Where the field `index` stands, counting the fields from 0.
pub open spec fn field_y(index: int) -> int {
    VERTICAL_FIELD_START + VERTICAL_FIELD_SPACE * index
}

/// The number of bars of a field.
pub open spec fn bar_count(kind: HighLevelKind) -> int {
    match kind {
        HighLevelKind::Boolean => 1,
        HighLevelKind::SevenSegmentDisplay(digits) => 7 * digits,
    }
}

/// The number of bars of the first `n` fields.
pub open spec fn bars_before(fields: Seq<HighLevelField>, n: int) -> int
    decreases n,
{
    if n <= 0 {
        0
    } else {
        bars_before(fields, n - 1) + bar_count(fields[n - 1].kind)
    }
}

/// What stands on the sheet for the field `i`.  Its bars are named from the
/// number of the bars of the fields before it.
pub open spec fn entry_of(fields: Seq<HighLevelField>, i: int) -> EntryView {
    let x = field_x(fields[i].descriptor@);
    let y = field_y(i);
    let first_id = bars_before(fields, i);
    match fields[i].kind {
        HighLevelKind::Boolean => EntryView::Boolean(
            Bar {
                x: x as u128,
                y: (y + BAR_VERTICAL_OFFSET) as u128,
                is_horizontal: true,
                id: BarId { inner: first_id as u128 },
            },
        ),
        HighLevelKind::SevenSegmentDisplay(digits) => EntryView::SevenSegmentDisplay(
            display_digits(x, y + SEVEN_SEGMENT_DISPLAY_OFFSET, digits as int, first_id),
        ),
    }
}

/// What a layout holds: the title, the fields' bars, and the labels with
/// their positions.
pub struct LayoutView {
    pub title: Seq<char>,
    pub entries: Seq<EntryView>,
    pub descriptors: Seq<(u128, u128, Seq<char>)>,
}

/// The layout of the first `n` fields of a page.
pub open spec fn laid_out_fields(title: Seq<char>, fields: Seq<HighLevelField>, n: int) -> LayoutView {
    LayoutView {
        title,
        entries: Seq::new(n as nat, |i: int| entry_of(fields, i)),
        descriptors: Seq::new(
            n as nat,
            |i: int| (FIELD_START_X, field_y(i) as u128, fields[i].descriptor@),
        ),
    }
}

/// The layout of a page: the fields stand one below the other, each with its
/// label before it, and the bars are named in that order, counting from 0.
pub open spec fn laid_out(description: HighLevelPageDescription) -> LayoutView {
    laid_out_fields(
        description.document_title@,
        description.fields@,
        description.fields@.len() as int,
    )
}

/// The bars of a display: digit after digit, each from `a` to `g`.
pub open spec fn display_bars(digits: Seq<Seq<Bar>>) -> Seq<Bar>
    decreases digits.len(),
{
    if digits.len() == 0 {
        Seq::empty()
    } else {
        display_bars(digits.drop_last()) + digits.last()
    }
}

/// The bars of a field.
pub open spec fn entry_bars(entry: EntryView) -> Seq<Bar> {
    match entry {
        EntryView::Boolean(bar) => seq![bar],
        EntryView::SevenSegmentDisplay(digits) => display_bars(digits),
    }
}

/// All the bars of a layout, field after field.
pub open spec fn layout_bars(entries: Seq<EntryView>) -> Seq<Bar>
    decreases entries.len(),
{
    if entries.len() == 0 {
        Seq::empty()
    } else {
        layout_bars(entries.drop_last()) + entry_bars(entries.last())
    }
}

/// Whether the bars are named by their places: the first is bar 0, the next
/// bar 1, and so on without a gap.  Each also has its far corner on the
/// plane.
pub open spec fn named_in_order(bars: Seq<Bar>) -> bool {
    forall|j: int|
        0 <= j < bars.len() ==> (#[trigger] bars[j]).id.inner == j && bars[j].well_formed()
}

impl LayoutView {
    /// Each field has a label, each digit has seven bars, no display has
    /// more than `MAX_DIGITS` digits, and the names of the bars are unique
    /// and dense: read field after field they count 0, 1, 2 and so on.
    pub open spec fn well_formed(self) -> bool {
        &&& self.descriptors.len() == self.entries.len()
        &&& forall|i: int| 0 <= i < self.entries.len() ==> readable_entry(#[trigger] self.entries[i])
        &&& named_in_order(layout_bars(self.entries))
    }
}

/// In a well-formed layout no two bars have the same name, and the names
/// are the numbers from 0 to the number of bars less one.
pub proof fn lemma_bar_ids_unique_and_dense(layout: LayoutView, i: int, j: int)
    requires
        layout.well_formed(),
        0 <= i < layout_bars(layout.entries).len(),
        0 <= j < layout_bars(layout.entries).len(),
    ensures
        layout_bars(layout.entries)[i].id.inner == i,
        i != j ==> layout_bars(layout.entries)[i].id != layout_bars(layout.entries)[j].id,
{
}

impl HighLevelPageDescription {
    /// No display has more than `MAX_DIGITS` digits.
    pub open spec fn well_formed(&self) -> bool {
        forall|i: int|
            0 <= i < self.fields@.len() ==> match (#[trigger] self.fields@[i]).kind {
                HighLevelKind::Boolean => true,
                HighLevelKind::SevenSegmentDisplay(digits) => digits <= MAX_DIGITS,
            }
    }

    /// Whether no display has more than `MAX_DIGITS` digits.
    pub fn is_well_formed(&self) -> (ok: bool)
        ensures
            ok == self.well_formed(),
    {
        let mut i: usize = 0;
        while i < self.fields.len()
            invariant
                i <= self.fields.len(),
                forall|j: int|
                    0 <= j < i ==> match (#[trigger] self.fields@[j]).kind {
                        HighLevelKind::Boolean => true,
                        HighLevelKind::SevenSegmentDisplay(digits) => digits <= MAX_DIGITS,
                    },
            decreases self.fields.len() - i,
        {
            match self.fields[i].kind {
                HighLevelKind::Boolean => {},
                HighLevelKind::SevenSegmentDisplay(digits) => {
                    if digits > MAX_DIGITS {
                        return false;
                    }
                },
            }
            i += 1;
        }
        true
    }

    /// Lays the page out.
    pub fn layout(&self) -> (layout: PageLayout)
        requires
            self.well_formed(),
        ensures
            layout@ == laid_out(*self),
            layout@.well_formed(),
    {
        let mut id_generator = BarIdGenerator::new();
        let mut layout = PageLayout::new(self.document_title.clone());
        let ghost fields = self.fields@;
        let ghost title = self.document_title@;
        let mut i: usize = 0;
        proof {
            assert(layout@ =~= laid_out_fields(title, fields, 0)) by {
                assert(layout@.entries =~= laid_out_fields(title, fields, 0).entries);
                assert(layout@.descriptors =~= laid_out_fields(title, fields, 0).descriptors);
            }
        }
        while i < self.fields.len()
            invariant
                i <= self.fields.len(),
                fields == self.fields@,
                title == self.document_title@,
                self.well_formed(),
                layout@ == laid_out_fields(title, fields, i as int),
                layout@.well_formed(),
                id_generator.inner == bars_before(fields, i as int),
                id_generator.inner == layout_bars(layout@.entries).len(),
                id_generator.inner <= 1785 * i,
            decreases self.fields.len() - i,
        {
            let field = &self.fields[i];
            let length = field.descriptor.as_str().as_bytes().len();
            let text_x_offset: u128 = FIELD_START_X + CHARACTER_WIDTH * (length as u128)
                + TEXT_GAP;
            let current_y: u128 = VERTICAL_FIELD_START + VERTICAL_FIELD_SPACE * (i as u128);
            let ghost first_id = id_generator.inner as int;
            let ghost before = layout@;
            let new_entry = match field.kind {
                HighLevelKind::Boolean => LayoutEntry::Boolean(
                    Bar::new(
                        text_x_offset,
                        current_y + BAR_VERTICAL_OFFSET,
                        true,
                        &mut id_generator,
                    ),
                ),
                HighLevelKind::SevenSegmentDisplay(digit_count) => {
                    proof {
                        lemma_display_bars(
                            text_x_offset as int,
                            current_y as int,
                            digit_count as int,
                            first_id,
                        );
                    }
                    LayoutEntry::SevenSegmentDisplay(
                        SevenSegmentDisplay::new(
                            text_x_offset,
                            current_y + SEVEN_SEGMENT_DISPLAY_OFFSET,
                            digit_count,
                            &mut id_generator,
                        ),
                    )
                },
            };
            proof {
                assert(new_entry@ == entry_of(fields, i as int));
            }
            layout.add_entry(new_entry, field.descriptor.clone(), FIELD_START_X, current_y);
            proof {
                let after = laid_out_fields(title, fields, i + 1);
                assert(layout@.entries =~= after.entries);
                assert(layout@.descriptors =~= after.descriptors);
                assert(layout@.entries.drop_last() =~= before.entries);
                assert(layout@.entries.last() == entry_of(fields, i as int));
            }
            i += 1;
        }
        layout
    }
}

/// The bars of a display are seven to a digit, and are named in order from
/// the name of its first bar.
proof fn lemma_display_bars(x: int, y: int, count: int, first_id: int)
    requires
        0 <= count <= 255,
        0 <= x,
        0 <= y,
        0 <= first_id,
        x + DIGIT_STRIDE * 256 + BAR_LENGTH <= u128::MAX,
        y + 644 + BAR_LENGTH <= u128::MAX,
        first_id + 7 * 256 <= u128::MAX,
    ensures
        display_bars(display_digits(x, y, count, first_id)).len() == 7 * count,
        forall|m: int|
            0 <= m < 7 * count ==> {
                let bar = #[trigger] display_bars(display_digits(x, y, count, first_id))[m];
                bar.id.inner == first_id + m && bar.well_formed()
            },
        forall|d: int|
            0 <= d < count ==> readable_digit(#[trigger] display_digits(x, y, count, first_id)[d]),
    decreases count,
{
    assert forall|d: int| 0 <= d < count implies readable_digit(
        #[trigger] display_digits(x, y, count, first_id)[d],
    ) by {
        let bars = display_digits(x, y, count, first_id)[d];
        assert(bars == digit_bars(x + DIGIT_STRIDE * d, y, first_id + 7 * d));
        assert forall|k: int| 0 <= k < 7 implies (#[trigger] bars[k]).well_formed() by {
            assert(bars[k] == segment_bar(x + DIGIT_STRIDE * d, y, first_id + 7 * d, k));
        }
    }
    if count > 0 {
        lemma_display_bars(x, y, count - 1, first_id);
        let digits = display_digits(x, y, count, first_id);
        let fewer = display_digits(x, y, count - 1, first_id);
        assert(digits.drop_last() =~= fewer);
        let last = digits.last();
        assert(last == digit_bars(x + DIGIT_STRIDE * (count - 1), y, first_id + 7 * (count - 1)));
        let all = display_bars(digits);
        assert forall|m: int| 0 <= m < 7 * count implies {
            let bar = #[trigger] all[m];
            bar.id.inner == first_id + m && bar.well_formed()
        } by {
            if m < 7 * (count - 1) {
                assert(all[m] == display_bars(fewer)[m]);
            } else {
                let k = m - 7 * (count - 1);
                assert(all[m] == last[k]);
                assert(last[k] == segment_bar(
                    x + DIGIT_STRIDE * (count - 1),
                    y,
                    first_id + 7 * (count - 1),
                    k,
                ));
            }
        }
    }
}

/// The element that stands for a bar.
pub open spec fn bar_element(bar: Bar) -> ElementView {
    ElementView {
        x: bar.x,
        y: bar.y,
        kind: if bar.is_horizontal {
            KindView::HorizontalBar
        } else {
            KindView::VerticalBar
        },
    }
}

/// The elements that stand for the bars, in order.
pub open spec fn bar_elements(bars: Seq<Bar>) -> Seq<ElementView> {
    Seq::new(bars.len(), |j: int| bar_element(bars[j]))
}

/// The elements that stand for the labels, in order.
pub open spec fn label_elements(labels: Seq<(u128, u128, Seq<char>)>) -> Seq<ElementView> {
    Seq::new(
        labels.len(),
        |i: int|
            ElementView { x: labels[i].0, y: labels[i].1, kind: KindView::FieldDescriptor(labels[i].2) },
    )
}

/// The title's element.
pub open spec fn title_element(title: Seq<char>) -> ElementView {
    ElementView { x: TITLE_X, y: TITLE_Y, kind: KindView::Title(title) }
}

/// The four alignment rings: top left, top right, bottom right, bottom
/// left, each as far from its two edges as the first is from the top and the
/// left.
pub open spec fn aligner_elements() -> Seq<ElementView> {
    let near = ALIGNER_DISTANCE_FROM_CORNER;
    let far = (SHEET_SIDE - 2 * ALIGNER_OUTER_RADIUS - ALIGNER_DISTANCE_FROM_CORNER) as u128;
    seq![
        ElementView { x: near, y: near, kind: KindView::Aligner },
        ElementView { x: far, y: near, kind: KindView::Aligner },
        ElementView { x: far, y: far, kind: KindView::Aligner },
        ElementView { x: near, y: far, kind: KindView::Aligner },
    ]
}

/// Everything that is printed on a sheet, in the order in which it is
/// drawn.
pub open spec fn sheet_elements(layout: LayoutView) -> Seq<ElementView> {
    seq![title_element(layout.title)] + aligner_elements() + label_elements(layout.descriptors)
        + bar_elements(layout_bars(layout.entries))
}

impl Bar {
    /// The element that stands for this bar.
    pub fn to_element(&self) -> (element: Element)
        ensures
            element@ == bar_element(*self),
    {
        Element {
            x: self.x,
            y: self.y,
            kind: if self.is_horizontal {
                ElementKind::HorizontalBar
            } else {
                ElementKind::VerticalBar
            },
        }
    }
}

impl SevenSegmentDisplay {
    /// The elements of the display's bars: digit after digit, each from `a`
    /// to `g`.
    pub fn elements_iter(&self) -> (elements: Vec<Element>)
        ensures
            elements@.len() == display_bars(self@).len(),
            forall|j: int|
                0 <= j < elements@.len() ==> (#[trigger] elements@[j])@ == bar_element(
                    display_bars(self@)[j],
                ),
    {
        let mut elements: Vec<Element> = Vec::new();
        let mut digit_index: usize = 0;
        proof {
            assert(self@.take(0) =~= Seq::<Seq<Bar>>::empty());
        }
        while digit_index < self.digits.len()
            invariant
                digit_index <= self.digits.len(),
                elements@.len() == display_bars(self@.take(digit_index as int)).len(),
                forall|j: int|
                    0 <= j < elements@.len() ==> (#[trigger] elements@[j])@ == bar_element(
                        display_bars(self@.take(digit_index as int))[j],
                    ),
            decreases self.digits.len() - digit_index,
        {
            let digit = &self.digits[digit_index];
            let ghost done = display_bars(self@.take(digit_index as int));
            proof {
                let longer = self@.take(digit_index + 1);
                assert(longer.drop_last() =~= self@.take(digit_index as int));
                assert(longer.last() == digit@);
            }
            let mut bar_index: usize = 0;
            while bar_index < digit.bars.len()
                invariant
                    bar_index <= digit.bars.len(),
                    elements@.len() == done.len() + bar_index,
                    forall|j: int|
                        0 <= j < elements@.len() ==> (#[trigger] elements@[j])@ == bar_element(
                            (done + digit@)[j],
                        ),
                decreases digit.bars.len() - bar_index,
            {
                let bar = &digit.bars[bar_index];
                elements.push(bar.to_element());
                bar_index += 1;
            }
            digit_index += 1;
        }
        proof {
            assert(self@.take(digit_index as int) =~= self@);
        }
        elements
    }
}

/// The layout of a page: where each bar and each label stands.
pub struct PageLayout {
    document_title: String,
    fields: Vec<LayoutEntry>,
    descriptors: Vec<(u128, u128, String)>,
}

impl View for PageLayout {
    type V = LayoutView;

    closed spec fn view(&self) -> LayoutView {
        LayoutView {
            title: self.document_title@,
            entries: Seq::new(self.fields@.len(), |i: int| self.fields@[i]@),
            descriptors: Seq::new(
                self.descriptors@.len(),
                |i: int| (self.descriptors@[i].0, self.descriptors@[i].1, self.descriptors@[i].2@),
            ),
        }
    }
}

impl PageLayout {
    fn new(title: String) -> (layout: PageLayout)
        ensures
            layout@.title == title@,
            layout@.entries == Seq::<EntryView>::empty(),
            layout@.descriptors == Seq::<(u128, u128, Seq<char>)>::empty(),
    {
        let layout = PageLayout { document_title: title, fields: Vec::new(), descriptors: Vec::new() };
        proof {
            assert(layout@.entries =~= Seq::<EntryView>::empty());
            assert(layout@.descriptors =~= Seq::<(u128, u128, Seq<char>)>::empty());
        }
        layout
    }

    /// What stands on the sheet for each field, in the order of the fields.
    pub fn fields(&self) -> (fields: &Vec<LayoutEntry>)
        ensures
            fields@.len() == self@.entries.len(),
            forall|i: int| 0 <= i < fields@.len() ==> (#[trigger] fields@[i])@ == self@.entries[i],
    {
        &self.fields
    }

    /// The page's title.
    pub fn title(&self) -> (title: &String)
        ensures
            title@ == self@.title,
    {
        &self.document_title
    }

    /// Everything that is printed on the sheet, in the order in which it is
    /// drawn: the title, the four alignment rings from the top left
    /// clockwise, the labels, and the bars field after field.
    pub fn to_elements(&self) -> (sheet: ScanSheetElements)
        ensures
            sheet@ == sheet_elements(self@),
    {
        let far: u128 = SHEET_SIDE - 2 * ALIGNER_OUTER_RADIUS - ALIGNER_DISTANCE_FROM_CORNER;
        let mut elements = ScanSheetElements::empty();
        elements.add_element(
            Element { x: TITLE_X, y: TITLE_Y, kind: ElementKind::Title(self.document_title.clone()) },
        );
        elements.add_element(
            Element {
                x: ALIGNER_DISTANCE_FROM_CORNER,
                y: ALIGNER_DISTANCE_FROM_CORNER,
                kind: ElementKind::Aligner,
            },
        );
        elements.add_element(
            Element { x: far, y: ALIGNER_DISTANCE_FROM_CORNER, kind: ElementKind::Aligner },
        );
        elements.add_element(Element { x: far, y: far, kind: ElementKind::Aligner });
        elements.add_element(
            Element { x: ALIGNER_DISTANCE_FROM_CORNER, y: far, kind: ElementKind::Aligner },
        );
        let ghost head = elements@;
        proof {
            assert(head =~= seq![title_element(self@.title)] + aligner_elements());
        }
        let mut i: usize = 0;
        while i < self.descriptors.len()
            invariant
                i <= self.descriptors.len(),
                elements@ == head + label_elements(self@.descriptors.take(i as int)),
            decreases self.descriptors.len() - i,
        {
            let x = self.descriptors[i].0;
            let y = self.descriptors[i].1;
            let text = self.descriptors[i].2.clone();
            elements.add_element(Element { x, y, kind: ElementKind::FieldDescriptor(text) });
            proof {
                assert(self@.descriptors[i as int] == (x, y, text@));
                assert(elements@ =~= head + label_elements(self@.descriptors.take(i + 1)));
            }
            i += 1;
        }
        let ghost labelled = elements@;
        proof {
            assert(self@.descriptors.take(i as int) =~= self@.descriptors);
            assert(self@.entries.take(0) =~= Seq::<EntryView>::empty());
            assert(labelled =~= labelled + bar_elements(layout_bars(self@.entries.take(0))));
        }
        let mut i: usize = 0;
        while i < self.fields.len()
            invariant
                i <= self.fields.len(),
                elements@ == labelled + bar_elements(layout_bars(self@.entries.take(i as int))),
            decreases self.fields.len() - i,
        {
            let ghost before = elements@;
            let ghost bars_before = layout_bars(self@.entries.take(i as int));
            proof {
                let longer = self@.entries.take(i + 1);
                assert(longer.drop_last() =~= self@.entries.take(i as int));
                assert(longer.last() == self.fields@[i as int]@);
            }
            match &self.fields[i] {
                LayoutEntry::Boolean(b) => {
                    elements.add_element(b.to_element());
                    proof {
                        assert(elements@ =~= labelled + bar_elements(bars_before + seq![*b]));
                    }
                },
                LayoutEntry::SevenSegmentDisplay(n) => {
                    let more = n.elements_iter();
                    let ghost bars = display_bars(n@);
                    let mut k: usize = 0;
                    while k < more.len()
                        invariant
                            k <= more.len(),
                            more@.len() == bars.len(),
                            forall|j: int|
                                0 <= j < more@.len() ==> (#[trigger] more@[j])@ == bar_element(
                                    bars[j],
                                ),
                            elements@ == before + bar_elements(bars.take(k as int)),
                        decreases more.len() - k,
                    {
                        elements.add_element(more[k].clone_element());
                        proof {
                            assert(elements@ =~= before + bar_elements(bars.take(k + 1)));
                        }
                        k += 1;
                    }
                    proof {
                        assert(bars.take(k as int) =~= bars);
                        assert(elements@ =~= labelled + bar_elements(bars_before + bars));
                    }
                },
            }
            i += 1;
        }
        proof {
            assert(self@.entries.take(i as int) =~= self@.entries);
            assert(elements@ =~= sheet_elements(self@));
        }
        elements
    }

    /// Reads the fields' values from the marks found on a sheet: a boolean
    /// for each checkbox and a number for each display, in the order of the
    /// fields, or the first error.  Each reading begins with no name found,
    /// so the same marks always read the same.
    pub fn interpret_targets(&self, targets_found: &BarsFound) -> (values: Result<
        LayoutResult,
        LayoutResultError,
    >)
        requires
            self@.well_formed(),
        ensures
            match values {
                Ok(read) => decoded(self@.entries, targets_found@) == Ok::<
                    Seq<LayoutResultOption>,
                    LayoutResultError,
                >(read@),
                Err(e) => decoded(self@.entries, targets_found@) == Err::<
                    Seq<LayoutResultOption>,
                    LayoutResultError,
                >(e),
            },
    {
        proof {
            assert(self@.entries =~= crate::decode::entry_views(self.fields@));
            assert forall|i: int| 0 <= i < self.fields@.len() implies readable_entry(
                (#[trigger] self.fields@[i])@,
            ) by {
                assert(self@.entries[i] == self.fields@[i]@);
            }
        }
        decode_entries(&self.fields, targets_found)
    }

    fn add_entry(&mut self, entry: LayoutEntry, descriptor: String, x: u128, y: u128)
        ensures
            final(self)@.title == old(self)@.title,
            final(self)@.entries == old(self)@.entries.push(entry@),
            final(self)@.descriptors == old(self)@.descriptors.push((x, y, descriptor@)),
    {
        self.fields.push(entry);
        self.descriptors.push((x, y, descriptor));
        proof {
            assert(final(self)@.entries =~= old(self)@.entries.push(entry@));
            assert(final(self)@.descriptors =~= old(self)@.descriptors.push((x, y, descriptor@)));
        }
    }
}

} // verus!
