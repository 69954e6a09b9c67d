//! All the targets of one image: how they are found, and how the four
//! alignment rings among them are picked and put in order.

use crate::blob::{lemma_description_unique, Blob};
use crate::boolean_matrix::{BooleanMatrix, MaskView};
use crate::components::{extract_blobs, leaders, measures_regions};
use crate::image::{Color, Image, ImageView};
use crate::target::{target_of, Target, TargetKind};
use vstd::prelude::*;

verus! {

/// The blobs of a mask: the measurements of each of its four-connected
/// regions, ordered by the regions' first pixels in reading order.
pub open spec fn blobs_of(mask: MaskView) -> Seq<Blob> {
    choose|blobs: Seq<Blob>| measures_regions(blobs, mask)
}

/// Only one sequence of blobs measures the regions of a mask.
pub proof fn lemma_blobs_unique(a: Seq<Blob>, b: Seq<Blob>, mask: MaskView)
    requires
        measures_regions(a, mask),
        measures_regions(b, mask),
    ensures
        a == b,
{
    let first = leaders(mask.set, mask.width as int, mask.height as int);
    assert forall|i: int| 0 <= i < a.len() implies a[i] == b[i] by {
        lemma_description_unique(
            a[i],
            b[i],
            crate::region::component(mask.set, first[i]),
            mask.width as int,
            mask.height as int,
        );
    }
    assert(a =~= b);
}

/// The target that a blob becomes in an image of the given size, if it
/// becomes one.
pub open spec fn blob_target(blob: Blob, image_base: usize, image_height: usize) -> Option<Target> {
    target_of(
        blob.left,
        blob.right,
        blob.top,
        blob.bottom,
        blob.pixels_filled,
        blob.mean_x,
        blob.mean_y,
        image_base,
        image_height,
    )
}

/// The targets that the blobs become, in order; the blobs that are dropped
/// leave no gap.
pub open spec fn classify_all(blobs: Seq<Blob>, image_base: usize, image_height: usize) -> Seq<
    Target,
>
    decreases blobs.len(),
{
    if blobs.len() == 0 {
        Seq::empty()
    } else {
        let rest = classify_all(blobs.drop_last(), image_base, image_height);
        match blob_target(blobs.last(), image_base, image_height) {
            Some(target) => rest.push(target),
            None => rest,
        }
    }
}

/// The centres, in sheet units, of the targets that are bars, in order.
pub open spec fn bar_centers(targets: Seq<Target>) -> Seq<(u128, u128)>
    decreases targets.len(),
{
    if targets.len() == 0 {
        Seq::empty()
    } else {
        let rest = bar_centers(targets.drop_last());
        if targets.last().bar() {
            rest.push(targets.last().center())
        } else {
            rest
        }
    }
}

/// The targets that are alignment rings, in order.
pub open spec fn aligners(targets: Seq<Target>) -> Seq<Target>
    decreases targets.len(),
{
    if targets.len() == 0 {
        Seq::empty()
    } else {
        let rest = aligners(targets.drop_last());
        if targets.last().kind == TargetKind::Aligner {
            rest.push(targets.last())
        } else {
            rest
        }
    }
}

/// Whether every target is well formed and was found in an image of the
/// given size.
pub open spec fn in_frame(targets: Seq<Target>, image_base: int, image_height: int) -> bool {
    forall|i: int|
        0 <= i < targets.len() ==> {
            &&& (#[trigger] targets[i]).well_formed()
            &&& targets[i].image_base == image_base
            &&& targets[i].image_height == image_height
        }
}

/// The colour in which a target of a kind is drawn over a picture.
pub open spec fn kind_color(kind: TargetKind) -> Color {
    match kind {
        TargetKind::HorizontalBar => Color { r: 0, g: 0xff, b: 0xff },
        TargetKind::VerticalBar => Color { r: 0, g: 0, b: 0xff },
        TargetKind::Aligner => Color { r: 0xff, g: 0, b: 0 },
        TargetKind::Debug => Color { r: 0, g: 0xff, b: 0 },
    }
}

/// Whether `(x, y)` lies in the rectangle from `(left, top)` to
/// `(right, bottom)`, edges included.
pub open spec fn in_rectangle(x: int, y: int, left: int, right: int, top: int, bottom: int) -> bool {
    left <= x <= right && top <= y <= bottom
}

/// Whether `after` is `before` with the rectangle painted in `color`.
pub open spec fn painted(
    before: ImageView,
    after: ImageView,
    left: int,
    right: int,
    top: int,
    bottom: int,
    color: Color,
) -> bool {
    &&& after.base == before.base
    &&& after.height == before.height
    &&& after.pixels.len() == before.pixels.len()
    &&& forall|x: int, y: int|
        before.in_bounds(x, y) ==> #[trigger] after.pixel(x, y) == if in_rectangle(
            x,
            y,
            left,
            right,
            top,
            bottom,
        ) {
            color
        } else {
            before.pixel(x, y)
        }
}

/// The colour of the pixel `(x, y)` when the first `n` targets have been
/// drawn over a picture, one after the other: each as its box in the colour
/// of its kind, and on it a yellow square around its centroid that reaches
/// a two-hundredth of the picture's height to each side.
pub open spec fn overlay_pixel(before: ImageView, targets: Seq<Target>, n: int, x: int, y: int) -> Color
    decreases n,
{
    if n <= 0 {
        before.pixel(x, y)
    } else {
        let target = targets[n - 1];
        let half = before.height as int / 200;
        if in_rectangle(
            x,
            y,
            target.mean_x - half,
            target.mean_x + half,
            target.mean_y - half,
            target.mean_y + half,
        ) {
            Color { r: 0xff, g: 0xff, b: 0 }
        } else if in_rectangle(
            x,
            y,
            target.left as int,
            target.right as int,
            target.top as int,
            target.bottom as int,
        ) {
            kind_color(target.kind)
        } else {
            overlay_pixel(before, targets, n - 1, x, y)
        }
    }
}

/// Paints the rectangle from `(left, top)` to `(right, bottom)`, edges
/// included.
fn paint_rectangle(
    image: &mut Image,
    left: usize,
    right: usize,
    top: usize,
    bottom: usize,
    color: Color,
)
    requires
        old(image).well_formed(),
        left <= right < old(image)@.base,
        top <= bottom < old(image)@.height,
    ensures
        final(image).well_formed(),
        painted(
            old(image)@,
            final(image)@,
            left as int,
            right as int,
            top as int,
            bottom as int,
            color,
        ),
{
    let ghost before = image@;
    proof {
        image.lemma_well_formed();
    }
    let mut y: usize = top;
    while y <= bottom
        invariant
            top <= y <= bottom + 1,
            left <= right < before.base,
            bottom < before.height,
            before.pixels.len() == before.base * before.height,
            before.base <= usize::MAX,
            before.height <= usize::MAX,
            image.well_formed(),
            painted(before, image@, left as int, right as int, top as int, y - 1, color),
        decreases bottom + 1 - y,
    {
        let mut x: usize = left;
        while x <= right
            invariant
                left <= x <= right + 1,
                right < before.base,
                top <= y <= bottom,
                bottom < before.height,
                before.pixels.len() == before.base * before.height,
                before.base <= usize::MAX,
                before.height <= usize::MAX,
                image.well_formed(),
                image@.base == before.base,
                image@.height == before.height,
                image@.pixels.len() == before.pixels.len(),
                forall|px: int, py: int|
                    before.in_bounds(px, py) ==> #[trigger] image@.pixel(px, py) == if in_rectangle(
                        px,
                        py,
                        left as int,
                        right as int,
                        top as int,
                        y - 1,
                    ) || (py == y && left <= px < x) {
                        color
                    } else {
                        before.pixel(px, py)
                    },
            decreases right + 1 - x,
        {
            let ghost then = image@;
            image.set_color(x, y, color);
            proof {
                let w = before.base as int;
                image.lemma_well_formed();
                assert forall|px: int, py: int| before.in_bounds(px, py) implies #[trigger] image@.pixel(
                    px,
                    py,
                ) == if in_rectangle(px, py, left as int, right as int, top as int, y - 1) || (py
                    == y && left <= px < x + 1) {
                    color
                } else {
                    before.pixel(px, py)
                } by {
                    crate::image::lemma_index_in_range(px, py, w, before.height as int);
                    crate::image::lemma_index_in_range(x as int, y as int, w, before.height as int);
                    if py * w + px == y * w + x {
                        crate::image::lemma_index_injective(px, py, x as int, y as int, w);
                    } else {
                        assert(image@.pixel(px, py) == then.pixel(px, py));
                    }
                }
            }
            x += 1;
        }
        y += 1;
    }
}

/// The targets found in one image.
#[derive(Debug)]
pub struct TargetMesh {
    pub targets: Vec<Target>,
}

impl TargetMesh {
    /// The width of the image in which the targets were found.
    pub open spec fn image_base(&self) -> int {
        if self.targets@.len() > 0 {
            self.targets@[0].image_base as int
        } else {
            0
        }
    }

    /// The height of the image in which the targets were found.
    pub open spec fn image_height(&self) -> int {
        if self.targets@.len() > 0 {
            self.targets@[0].image_height as int
        } else {
            0
        }
    }

    /// Every target is well formed, and all were found in the same image.
    pub open spec fn well_formed(&self) -> bool {
        in_frame(self.targets@, self.image_base(), self.image_height())
    }

    /// Draws the targets over the picture in which they were found, one
    /// after the other: each as its box in the colour of its kind, and on it
    /// a yellow square around its centroid, cut off at the picture's edges.
    pub fn add_to_image(&self, image: &mut Image)
        requires
            self.well_formed(),
            old(image).well_formed(),
            self.targets@.len() > 0 ==> old(image)@.base == self.image_base() && old(image)@.height
                == self.image_height(),
        ensures
            final(image).well_formed(),
            final(image)@.base == old(image)@.base,
            final(image)@.height == old(image)@.height,
            forall|x: int, y: int|
                old(image)@.in_bounds(x, y) ==> #[trigger] final(image)@.pixel(x, y)
                    == overlay_pixel(old(image)@, self.targets@, self.targets@.len() as int, x, y),
    {
        let ghost before = image@;
        let base = image.base();
        let height = image.height();
        let target_center_square_size = height / 200;
        let mut i: usize = 0;
        while i < self.targets.len()
            invariant
                i <= self.targets.len(),
                self.well_formed(),
                self.targets@.len() > 0 ==> before.base == self.image_base() && before.height
                    == self.image_height(),
                image.well_formed(),
                base == before.base,
                height == before.height,
                target_center_square_size == before.height as int / 200,
                image@.base == before.base,
                image@.height == before.height,
                forall|x: int, y: int|
                    before.in_bounds(x, y) ==> #[trigger] image@.pixel(x, y) == overlay_pixel(
                        before,
                        self.targets@,
                        i as int,
                        x,
                        y,
                    ),
            decreases self.targets.len() - i,
        {
            let target = self.targets[i];
            let color = target.get_color();
            let ghost then = image@;
            paint_rectangle(image, target.left, target.right, target.top, target.bottom, color);
            let ghost boxed = image@;
            let size = target_center_square_size;
            let low_x = if target.mean_x >= size {
                target.mean_x - size
            } else {
                0
            };
            let low_y = if target.mean_y >= size {
                target.mean_y - size
            } else {
                0
            };
            let high_x = if size >= base - 1 - target.mean_x {
                base - 1
            } else {
                target.mean_x + size
            };
            let high_y = if size >= height - 1 - target.mean_y {
                height - 1
            } else {
                target.mean_y + size
            };
            paint_rectangle(image, low_x, high_x, low_y, high_y, Color::yellow());
            proof {
                assert forall|x: int, y: int| before.in_bounds(x, y) implies #[trigger] image@.pixel(
                    x,
                    y,
                ) == overlay_pixel(before, self.targets@, i + 1, x, y) by {
                    assert(boxed.in_bounds(x, y) && then.in_bounds(x, y));
                    assert(boxed.pixel(x, y) == if in_rectangle(
                        x,
                        y,
                        target.left as int,
                        target.right as int,
                        target.top as int,
                        target.bottom as int,
                    ) {
                        color
                    } else {
                        then.pixel(x, y)
                    });
                }
            }
            i += 1;
        }
    }

    /// The centres of the bars, in sheet units, in the order of the targets.
    pub fn get_bar_centers(&self) -> (centers: Vec<(u128, u128)>)
        requires
            self.well_formed(),
        ensures
            centers@ == bar_centers(self.targets@),
    {
        let mut centers: Vec<(u128, u128)> = Vec::new();
        let mut i: usize = 0;
        proof {
            assert(self.targets@.take(0) =~= Seq::empty());
        }
        while i < self.targets.len()
            invariant
                i <= self.targets.len(),
                self.well_formed(),
                centers@ == bar_centers(self.targets@.take(i as int)),
            decreases self.targets.len() - i,
        {
            let target = &self.targets[i];
            proof {
                let longer = self.targets@.take(i + 1);
                assert(longer.drop_last() =~= self.targets@.take(i as int));
                assert(longer.last() == *target);
            }
            if target.is_bar() {
                centers.push(target.center_position());
            }
            i += 1;
        }
        proof {
            assert(self.targets@.take(i as int) =~= self.targets@);
        }
        centers
    }

    /// Finds the regions of the mask and keeps those that the classifier
    /// does not drop, in the order in which a row-by-row reading meets them.
    pub fn from_matrix(target_candidates: &BooleanMatrix) -> (mesh: TargetMesh)
        requires
            target_candidates.well_formed(),
        ensures
            mesh.targets@ == classify_all(
                blobs_of(target_candidates@),
                target_candidates@.width as usize,
                target_candidates@.height as usize,
            ),
            in_frame(
                mesh.targets@,
                target_candidates@.width as int,
                target_candidates@.height as int,
            ),
            mesh.well_formed(),
    {
        let (base, height) = target_candidates.base_height();
        proof {
            target_candidates.lemma_well_formed();
        }
        let blobs = extract_blobs(target_candidates);
        proof {
            lemma_blobs_unique(blobs@, blobs_of(target_candidates@), target_candidates@);
        }
        let mut targets: Vec<Target> = Vec::new();
        let mut i: usize = 0;
        proof {
            assert(blobs@.take(0) =~= Seq::empty());
        }
        while i < blobs.len()
            invariant
                i <= blobs.len(),
                base * height <= usize::MAX,
                forall|k: int|
                    0 <= k < blobs@.len() ==> (#[trigger] blobs@[k]).valid() && blobs@[k].within(
                        base as int,
                        height as int,
                    ),
                targets@ == classify_all(blobs@.take(i as int), base, height),
                in_frame(targets@, base as int, height as int),
            decreases blobs.len() - i,
        {
            let blob = blobs[i];
            proof {
                let longer = blobs@.take(i + 1);
                assert(longer.drop_last() =~= blobs@.take(i as int));
                assert(longer.last() == blob);
                assert(blob.valid() && blob.within(base as int, height as int));
            }
            match Target::new(
                blob.left,
                blob.right,
                blob.top,
                blob.bottom,
                blob.pixels_filled,
                blob.mean_x,
                blob.mean_y,
                base,
                height,
            ) {
                Some(target) => {
                    targets.push(target);
                },
                None => {},
            }
            i += 1;
        }
        proof {
            assert(blobs@.take(i as int) =~= blobs@);
        }
        TargetMesh { targets }
    }
}

} // verus!
