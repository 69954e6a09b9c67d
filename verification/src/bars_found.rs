//! From a picture of a sheet to the marks on it, in two passes.
//!
//! The first pass finds the four alignment rings in the picture as it was
//! taken.  The caller then straightens the picture so that the rings come to
//! lie on `destination_centers`, and the second pass finds the bars in the
//! straightened picture.

use crate::aligner_sort::{centroids, corner_order, largest_first, AlignerCountError};
use crate::boolean_matrix::{dark_pixels, BooleanMatrix, MaskView};
use crate::image::{Image, ImageView};
use crate::scan_sheet_elements::{ALIGNER_OUTER_RADIUS, DARK_THRESHOLD, SHEET_SIDE};
use crate::scan_sheet_layout::ALIGNER_DISTANCE_FROM_CORNER;
use crate::target::Target;
use crate::target_mesh::{aligners, bar_centers, blobs_of, classify_all, TargetMesh};
use vstd::prelude::*;

verus! {

/// The side of the straightened picture, in pixels.
pub const CANONICAL_SIDE: usize = 500;

/// The centres of the bar-shaped marks of a sheet, in sheet units.  Their
/// order does not matter to what is decoded from them.
#[derive(Debug)]
pub struct BarsFound {
    pub bars: Vec<(u128, u128)>,
}

impl View for BarsFound {
    type V = Seq<(u128, u128)>;

    open spec fn view(&self) -> Seq<(u128, u128)> {
        self.bars@
    }
}

/// The dark pixels of a picture, as a mask of its size.
pub open spec fn dark_mask(image: ImageView) -> MaskView {
    MaskView { width: image.base, height: image.height, set: dark_pixels(image, DARK_THRESHOLD) }
}

/// The targets of a picture: what the classifier keeps of the regions of
/// its dark pixels.
pub open spec fn targets_of(image: ImageView) -> Seq<Target> {
    classify_all(blobs_of(dark_mask(image)), image.base as usize, image.height as usize)
}

/// Where the centres of the four alignment rings lie on the sheet, in sheet
/// units: top left, top right, bottom right, bottom left.
pub open spec fn ring_centers() -> Seq<(u128, u128)> {
    let near = (ALIGNER_OUTER_RADIUS + ALIGNER_DISTANCE_FROM_CORNER) as u128;
    let far = (SHEET_SIDE - near) as u128;
    seq![(near, near), (far, near), (far, far), (near, far)]
}

/// Where the centres of the four alignment rings lie on the sheet.  On a
/// straightened picture of side `s` pixels a sheet unit is `s / SHEET_SIDE`
/// pixels.
pub fn destination_centers() -> (centers: Vec<(u128, u128)>)
    ensures
        centers@ == ring_centers(),
{
    let d: u128 = ALIGNER_OUTER_RADIUS + ALIGNER_DISTANCE_FROM_CORNER;
    let mut centers: Vec<(u128, u128)> = Vec::with_capacity(4);
    centers.push((d, d));
    centers.push((SHEET_SIDE - d, d));
    centers.push((SHEET_SIDE - d, SHEET_SIDE - d));
    centers.push((d, SHEET_SIDE - d));
    proof {
        assert(centers@ =~= ring_centers());
    }
    centers
}

/// The first pass: the centroids of the four largest alignment rings of a
/// picture, in its pixels, in the order top left, top right, bottom right,
/// bottom left.  Fails if and only if the picture shows fewer than four
/// rings.
pub fn aligner_centers(input_image: &Image) -> (centers: Result<
    Vec<(usize, usize)>,
    AlignerCountError,
>)
    requires
        input_image.well_formed(),
    ensures
        centers is Err <==> aligners(targets_of(input_image@)).len() < 4,
        centers is Ok ==> centers.unwrap()@ == corner_order(
            centroids(largest_first(aligners(targets_of(input_image@)), 4)),
            input_image@.base as int,
            input_image@.height as int,
        ),
{
    let target_candidates = BooleanMatrix::from_image(input_image, DARK_THRESHOLD);
    proof {
        assert(target_candidates@ == dark_mask(input_image@));
        input_image.lemma_well_formed();
    }
    let mesh = TargetMesh::from_matrix(&target_candidates);
    proof {
        lemma_aligners_in_frame(
            mesh.targets@,
            input_image@.base as int,
            input_image@.height as int,
        );
    }
    let centers = mesh.get_aligner_centers();
    centers
}

/// The rings among targets of one image lie in that image.
proof fn lemma_aligners_in_frame(targets: Seq<Target>, w: int, h: int)
    requires
        crate::target_mesh::in_frame(targets, w, h),
    ensures
        aligners(targets).len() > 0 ==> targets.len() > 0,
    decreases targets.len(),
{
    if targets.len() > 0 {
        lemma_aligners_in_frame(targets.drop_last(), w, h);
    }
}

impl BarsFound {
    /// The second pass: the centres of the bars of a straightened picture,
    /// in sheet units, in the order in which a row-by-row reading meets the
    /// bars.
    pub fn from_image(input_image: &Image) -> (found: BarsFound)
        requires
            input_image.well_formed(),
        ensures
            found@ == bar_centers(targets_of(input_image@)),
    {
        let target_candidates = BooleanMatrix::from_image(input_image, DARK_THRESHOLD);
        proof {
            assert(target_candidates@ == dark_mask(input_image@));
            input_image.lemma_well_formed();
        }
        let mesh = TargetMesh::from_matrix(&target_candidates);
        BarsFound { bars: mesh.get_bar_centers() }
    }
}

} // verus!
