//! Telling alignment rings, bars and noise apart by the shape of a blob.
//!
//! Every threshold is a ratio of whole numbers of pixels, so each test is
//! decided exactly, by cross-multiplication.

use crate::image::Color;
use crate::scan_sheet_elements::SHEET_SIDE;
use crate::util::squareness;
use vstd::prelude::*;

verus! {

/// What a blob was recognised as.  `Debug` is a blob that is neither noise
/// nor a ring nor a bar; it is kept so that it can be shown.
#[derive(Clone, Copy, PartialEq, Eq, Debug, Structural)]
pub enum TargetKind {
    HorizontalBar,
    VerticalBar,
    Aligner,
    Debug,
}

/// The longer side of a box.
pub open spec fn longer(base: int, height: int) -> int {
    if base > height {
        base
    } else {
        height
    }
}

/// The shorter side of a box.
pub open spec fn shorter(base: int, height: int) -> int {
    if base > height {
        height
    } else {
        base
    }
}

/// Whether a blob is noise: it fills less than a tenth of its box, or less
/// than a ten-thousandth of the image, or its box is more than five times as
/// long as it is wide.
pub open spec fn is_noise(base: int, height: int, pixels_filled: int, image_pixels: int) -> bool {
    ||| 10 * pixels_filled < base * height
    ||| 10000 * pixels_filled < image_pixels
    ||| longer(base, height) > 5 * shorter(base, height)
}

/// Whether a blob has the shape of an alignment ring: its box is less than
/// twice as long as it is wide, and it fills more than two tenths and less
/// than six tenths of it.
pub open spec fn is_ring(base: int, height: int, pixels_filled: int) -> bool {
    &&& longer(base, height) < 2 * shorter(base, height)
    &&& base * height < 5 * pixels_filled
    &&& 5 * pixels_filled < 3 * (base * height)
}

/// Whether a blob has the shape of a bar: its box covers more than one and
/// less than five ten-thousandths of the image, and is more than once and
/// less than five times as long as it is wide.
pub open spec fn is_bar_shaped(base: int, height: int, image_pixels: int) -> bool {
    &&& image_pixels < 10000 * (base * height)
    &&& 2000 * (base * height) < image_pixels
    &&& shorter(base, height) < longer(base, height)
    &&& longer(base, height) < 5 * shorter(base, height)
}

/// What the blob with the given box and pixel count is, in an image of the
/// given size; nothing for noise and for a blob that looks like a ring and a
/// bar at once.
pub open spec fn classification(
    left: int,
    right: int,
    top: int,
    bottom: int,
    pixels_filled: int,
    image_base: int,
    image_height: int,
) -> Option<TargetKind> {
    let base = right - left + 1;
    let height = bottom - top + 1;
    let image_pixels = image_base * image_height;
    if is_noise(base, height, pixels_filled, image_pixels) {
        None
    } else {
        let ring = is_ring(base, height, pixels_filled);
        let bar = is_bar_shaped(base, height, image_pixels);
        if bar && ring {
            None
        } else if ring {
            Some(TargetKind::Aligner)
        } else if bar {
            if height <= base {
                Some(TargetKind::HorizontalBar)
            } else {
                Some(TargetKind::VerticalBar)
            }
        } else {
            Some(TargetKind::Debug)
        }
    }
}

impl TargetKind {
    /// Classifies the blob with the given box and pixel count in an image of
    /// the given size.  The result depends on these seven numbers alone.
    pub fn classify(
        left: usize,
        right: usize,
        top: usize,
        bottom: usize,
        pixels_filled: usize,
        image_base: usize,
        image_height: usize,
    ) -> (kind: Option<TargetKind>)
        requires
            left <= right < image_base,
            top <= bottom < image_height,
            image_base * image_height <= usize::MAX,
        ensures
            kind == classification(
                left as int,
                right as int,
                top as int,
                bottom as int,
                pixels_filled as int,
                image_base as int,
                image_height as int,
            ),
    {
        let target_base = right - left + 1;
        let target_height = bottom - top + 1;
        proof {
            assert(target_base * target_height <= image_base * image_height) by (nonlinear_arith)
                requires
                    0 < target_base <= image_base,
                    0 < target_height <= image_height,
            ;
        }
        let target_area: u128 = (target_base * target_height) as u128;
        let image_pixels: u128 = (image_base * image_height) as u128;
        let filled: u128 = pixels_filled as u128;
        let (long, short) = squareness(target_base, target_height);
        let long: u128 = long as u128;
        let short: u128 = short as u128;
        let is_tall = target_height > target_base;
        if 10 * filled < target_area || 10000 * filled < image_pixels || long > 5 * short {
            return None;
        }
        let is_aligner = long < 2 * short && target_area < 5 * filled && 5 * filled < 3
            * target_area;
        let is_bar = image_pixels < 10000 * target_area && 2000 * target_area < image_pixels
            && short < long && long < 5 * short;
        if is_bar && is_aligner {
            None
        } else if is_aligner {
            Some(TargetKind::Aligner)
        } else if is_bar {
            if is_tall {
                Some(TargetKind::VerticalBar)
            } else {
                Some(TargetKind::HorizontalBar)
            }
        } else {
            Some(TargetKind::Debug)
        }
    }

    /// The colour in which a target of this kind is drawn over a picture.
    pub fn get_color(self) -> (color: Color)
        ensures
            color == match self {
                TargetKind::HorizontalBar => Color { r: 0, g: 0xff, b: 0xff },
                TargetKind::VerticalBar => Color { r: 0, g: 0, b: 0xff },
                TargetKind::Aligner => Color { r: 0xff, g: 0, b: 0 },
                TargetKind::Debug => Color { r: 0, g: 0xff, b: 0 },
            },
    {
        match self {
            TargetKind::HorizontalBar => Color::cyan(),
            TargetKind::VerticalBar => Color::blue(),
            TargetKind::Aligner => Color::red(),
            TargetKind::Debug => Color::green(),
        }
    }
}

/// A classified blob.  Its box, its centroid and its size are kept in whole
/// pixels of the image it was found in, together with that image's size: a
/// position as a fraction of the image is the pixel over the size.
#[derive(Clone, Copy, Debug, PartialEq, Eq, Structural)]
pub struct Target {
    pub kind: TargetKind,
    pub top: usize,
    pub bottom: usize,
    pub right: usize,
    pub left: usize,
    pub pixels_filled: usize,
    pub mean_x: usize,
    pub mean_y: usize,
    pub image_base: usize,
    pub image_height: usize,
}

/// Whether the measurements are those of a region of an image of the given
/// size: the box lies on the image, the centroid in the box, and the region
/// has at least one pixel and no more than its box holds.
pub open spec fn measures_fit(
    left: int,
    right: int,
    top: int,
    bottom: int,
    pixels_filled: int,
    mean_x: int,
    mean_y: int,
    image_base: int,
    image_height: int,
) -> bool {
    &&& 0 <= left <= mean_x <= right < image_base
    &&& 0 <= top <= mean_y <= bottom < image_height
    &&& 0 < pixels_filled <= (right - left + 1) * (bottom - top + 1)
    &&& image_base * image_height <= usize::MAX
}

/// The centre of the span from `low` to `high` pixels of `size`, in sheet
/// units, rounded down.
pub open spec fn span_center(low: int, high: int, size: int) -> int {
    ((low + high) * SHEET_SIDE) / (2 * size)
}

impl Target {
    /// As fractions of the image: `0 <= left <= mean_x <= right < 1`, the
    /// same from top to bottom, and the part of the image that is filled is
    /// more than nothing and at most all of it.
    pub open spec fn well_formed(self) -> bool {
        &&& self.left <= self.mean_x <= self.right < self.image_base
        &&& self.top <= self.mean_y <= self.bottom < self.image_height
        &&& 0 < self.pixels_filled <= self.image_base * self.image_height
        &&& self.image_base * self.image_height <= usize::MAX
    }

    /// The centre of the target's box on the sheet, in sheet units.
    pub open spec fn center(self) -> (u128, u128) {
        (
            span_center(self.left as int, self.right as int, self.image_base as int) as u128,
            span_center(self.top as int, self.bottom as int, self.image_height as int) as u128,
        )
    }

    pub open spec fn bar(self) -> bool {
        self.kind == TargetKind::HorizontalBar || self.kind == TargetKind::VerticalBar
    }

    /// Classifies a blob and, unless it is dropped, keeps it with its kind.
    pub fn new(
        left: usize,
        right: usize,
        top: usize,
        bottom: usize,
        pixels_filled: usize,
        mean_x: usize,
        mean_y: usize,
        image_base: usize,
        image_height: usize,
    ) -> (target: Option<Target>)
        requires
            measures_fit(
                left as int,
                right as int,
                top as int,
                bottom as int,
                pixels_filled as int,
                mean_x as int,
                mean_y as int,
                image_base as int,
                image_height as int,
            ),
        ensures
            target == target_of(
                left,
                right,
                top,
                bottom,
                pixels_filled,
                mean_x,
                mean_y,
                image_base,
                image_height,
            ),
            target.is_some() ==> target.unwrap().well_formed(),
    {
        proof {
            assert((right - left + 1) * (bottom - top + 1) <= image_base * image_height)
                by (nonlinear_arith)
                requires
                    0 < right - left + 1 <= image_base,
                    0 < bottom - top + 1 <= image_height,
            ;
        }
        match TargetKind::classify(
            left,
            right,
            top,
            bottom,
            pixels_filled,
            image_base,
            image_height,
        ) {
            None => None,
            Some(kind) => Some(
                Target {
                    kind,
                    top,
                    bottom,
                    right,
                    left,
                    pixels_filled,
                    mean_x,
                    mean_y,
                    image_base,
                    image_height,
                },
            ),
        }
    }

    pub fn is_bar(&self) -> (bar: bool)
        ensures
            bar == self.bar(),
    {
        match self.kind {
            TargetKind::HorizontalBar => true,
            TargetKind::VerticalBar => true,
            _ => false,
        }
    }

    /// The centre of the target's box on the sheet, in sheet units, each
    /// coordinate rounded down.  In an image whose sides divide 3500 pixels
    /// nothing is rounded.
    pub fn center_position(&self) -> (center: (u128, u128))
        requires
            self.well_formed(),
        ensures
            center == self.center(),
            center.0 < SHEET_SIDE,
            center.1 < SHEET_SIDE,
    {
        let x = mean(self.left, self.right, self.image_base);
        let y = mean(self.top, self.bottom, self.image_height);
        (x, y)
    }

    pub fn is_aligner(&self) -> (aligner: bool)
        ensures
            aligner == (self.kind == TargetKind::Aligner),
    {
        match self.kind {
            TargetKind::Aligner => true,
            _ => false,
        }
    }

    pub fn get_color(&self) -> (color: Color)
        ensures
            color == match self.kind {
                TargetKind::HorizontalBar => Color { r: 0, g: 0xff, b: 0xff },
                TargetKind::VerticalBar => Color { r: 0, g: 0, b: 0xff },
                TargetKind::Aligner => Color { r: 0xff, g: 0, b: 0 },
                TargetKind::Debug => Color { r: 0, g: 0xff, b: 0 },
            },
    {
        self.kind.get_color()
    }
}

/// The target that a blob becomes, if it becomes one.
pub open spec fn target_of(
    left: usize,
    right: usize,
    top: usize,
    bottom: usize,
    pixels_filled: usize,
    mean_x: usize,
    mean_y: usize,
    image_base: usize,
    image_height: usize,
) -> Option<Target> {
    match classification(
        left as int,
        right as int,
        top as int,
        bottom as int,
        pixels_filled as int,
        image_base as int,
        image_height as int,
    ) {
        None => None,
        Some(kind) => Some(
            Target {
                kind,
                top,
                bottom,
                right,
                left,
                pixels_filled,
                mean_x,
                mean_y,
                image_base,
                image_height,
            },
        ),
    }
}

/// The middle of the span from `low` to `high`, as a position on the sheet.
fn mean(low: usize, high: usize, size: usize) -> (center: u128)
    requires
        low <= high < size,
    ensures
        center == span_center(low as int, high as int, size as int),
        center < SHEET_SIDE,
{
    let sum: u128 = low as u128 + high as u128;
    let scaled: u128 = sum * SHEET_SIDE;
    let center = scaled / (2 * (size as u128));
    proof {
        let whole = scaled as int;
        let parts = 2 * (size as int);
        assert(whole / parts < 7000) by (nonlinear_arith)
            requires
                whole == (sum as int) * 7000,
                0 <= sum < parts,
        ;
    }
    center
}

} // verus!
