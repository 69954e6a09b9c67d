//! The measurements of a connected region, and the neighbours of a pixel.

use crate::region::{
    adjacent, grid_sum, lemma_count_within_rectangle, lemma_grid_sum_bounds, pixel_count, Weight,
};
use vstd::prelude::*;

verus! {

/// The measurements of one connected region: its bounding box, edges
/// included, the number of its pixels, and the floor of their mean position.
#[derive(Clone, Copy, Debug, PartialEq, Eq, Structural)]
pub struct Blob {
    pub left: usize,
    pub right: usize,
    pub top: usize,
    pub bottom: usize,
    pub pixels_filled: usize,
    pub mean_x: usize,
    pub mean_y: usize,
}

impl Blob {
    /// What holds of the measurements of any region: it has a pixel, its mean
    /// lies in its box, and the box has room for its pixels.
    pub open spec fn valid(self) -> bool {
        &&& self.pixels_filled > 0
        &&& self.left <= self.mean_x <= self.right
        &&& self.top <= self.mean_y <= self.bottom
        &&& (self.right - self.left + 1) * (self.bottom - self.top + 1) >= self.pixels_filled
    }

    /// Whether the box lies on a raster of the given size.
    pub open spec fn within(self, width: int, height: int) -> bool {
        self.right < width && self.bottom < height
    }

    /// Whether these are the measurements of `region` on a grid of the given
    /// size: the exact count, the tight box and the floored means.
    pub open spec fn describes(self, region: Set<(int, int)>, width: int, height: int) -> bool {
        &&& self.pixels_filled > 0
        &&& self.pixels_filled == pixel_count(region, width, height)
        &&& forall|p: (int, int)| #[trigger]
            region.contains(p) ==> self.left <= p.0 <= self.right && self.top <= p.1 <= self.bottom
        &&& exists|y: int| #[trigger] region.contains((self.left as int, y))
        &&& exists|y: int| #[trigger] region.contains((self.right as int, y))
        &&& exists|x: int| #[trigger] region.contains((x, self.top as int))
        &&& exists|x: int| #[trigger] region.contains((x, self.bottom as int))
        &&& self.mean_x == grid_sum(region, Weight::Column, width, height) / (
        self.pixels_filled as int)
        &&& self.mean_y == grid_sum(region, Weight::Row, width, height) / (
        self.pixels_filled as int)
    }
}

/// A region has only one set of measurements.
pub proof fn lemma_description_unique(
    a: Blob,
    b: Blob,
    region: Set<(int, int)>,
    width: int,
    height: int,
)
    requires
        a.describes(region, width, height),
        b.describes(region, width, height),
    ensures
        a == b,
{
    let ay = choose|y: int| #[trigger] region.contains((a.left as int, y));
    let by = choose|y: int| #[trigger] region.contains((b.left as int, y));
    assert(region.contains((a.left as int, ay)) && region.contains((b.left as int, by)));
    let ay = choose|y: int| #[trigger] region.contains((a.right as int, y));
    let by = choose|y: int| #[trigger] region.contains((b.right as int, y));
    assert(region.contains((a.right as int, ay)) && region.contains((b.right as int, by)));
    let ax = choose|x: int| #[trigger] region.contains((x, a.top as int));
    let bx = choose|x: int| #[trigger] region.contains((x, b.top as int));
    assert(region.contains((ax, a.top as int)) && region.contains((bx, b.top as int)));
    let ax = choose|x: int| #[trigger] region.contains((x, a.bottom as int));
    let bx = choose|x: int| #[trigger] region.contains((x, b.bottom as int));
    assert(region.contains((ax, a.bottom as int)) && region.contains((bx, b.bottom as int)));
}

/// The measurements of a region on the grid are valid, and its box lies on
/// the grid.
pub proof fn lemma_description_valid(blob: Blob, region: Set<(int, int)>, width: int, height: int)
    requires
        blob.describes(region, width, height),
        forall|p: (int, int)| #[trigger]
            region.contains(p) ==> 0 <= p.0 < width && 0 <= p.1 < height,
    ensures
        blob.valid(),
        blob.within(width, height),
{
    let y = choose|y: int| #[trigger] region.contains((blob.right as int, y));
    assert(region.contains((blob.right as int, y)));
    let x = choose|x: int| #[trigger] region.contains((x, blob.bottom as int));
    assert(region.contains((x, blob.bottom as int)));
    let c = blob.pixels_filled as int;
    lemma_count_within_rectangle(
        region,
        blob.left as int,
        blob.right as int,
        blob.top as int,
        blob.bottom as int,
        width,
        height,
    );
    lemma_grid_sum_bounds(
        region,
        Weight::Column,
        width,
        height,
        blob.left as int,
        blob.right as int,
    );
    lemma_grid_sum_bounds(region, Weight::Row, width, height, blob.top as int, blob.bottom as int);
    lemma_mean_in_range(
        grid_sum(region, Weight::Column, width, height),
        c,
        blob.left as int,
        blob.right as int,
    );
    lemma_mean_in_range(
        grid_sum(region, Weight::Row, width, height),
        c,
        blob.top as int,
        blob.bottom as int,
    );
}

/// The floor of a mean lies between the bounds of what was averaged.
pub proof fn lemma_mean_in_range(sum: int, count: int, low: int, high: int)
    requires
        count > 0,
        low * count <= sum <= high * count,
    ensures
        low <= sum / count <= high,
{
    assert(low <= sum / count) by (nonlinear_arith)
        requires
            count > 0,
            low * count <= sum,
    ;
    assert(sum / count <= high) by (nonlinear_arith)
        requires
            count > 0,
            sum <= high * count,
    ;
}

/// The pixels around `(x, y)` that lie on a grid of the given size: left,
/// above, right, below.
pub open spec fn neighbors_of(x: usize, y: usize, width: usize, height: usize) -> Seq<
    (usize, usize),
> {
    let left = if x > 0 {
        seq![((x - 1) as usize, y)]
    } else {
        Seq::empty()
    };
    let above = if y > 0 {
        seq![(x, (y - 1) as usize)]
    } else {
        Seq::empty()
    };
    let right = if x + 1 < width {
        seq![((x + 1) as usize, y)]
    } else {
        Seq::empty()
    };
    let below = if y + 1 < height {
        seq![(x, (y + 1) as usize)]
    } else {
        Seq::empty()
    };
    left + above + right + below
}

/// A pixel as a point of the plane.
pub open spec fn point(p: (usize, usize)) -> (int, int) {
    (p.0 as int, p.1 as int)
}

/// Whether `q` is one of the pixels of `pixels`.
pub open spec fn holds(pixels: Seq<(usize, usize)>, q: (int, int)) -> bool {
    exists|i: int| 0 <= i < pixels.len() && point(#[trigger] pixels[i]) == q
}

/// The neighbours are the pixels of the grid that share an edge with
/// `(x, y)`.
pub proof fn lemma_neighbors_of(x: usize, y: usize, width: usize, height: usize)
    requires
        x < width,
        y < height,
    ensures
        forall|i: int|
            0 <= i < neighbors_of(x, y, width, height).len() ==> {
                let q = #[trigger] neighbors_of(x, y, width, height)[i];
                q.0 < width && q.1 < height && adjacent(point((x, y)), point(q))
            },
        forall|q: (int, int)|
            0 <= q.0 < width && 0 <= q.1 < height && adjacent(point((x, y)), q) ==> holds(
                neighbors_of(x, y, width, height),
                q,
            ),
{
    let around = neighbors_of(x, y, width, height);
    let n_left: int = if x > 0 {
        1
    } else {
        0
    };
    let n_above: int = if y > 0 {
        1
    } else {
        0
    };
    let n_right: int = if x + 1 < width {
        1
    } else {
        0
    };
    assert forall|q: (int, int)|
        0 <= q.0 < width && 0 <= q.1 < height && adjacent(point((x, y)), q) implies holds(
        around,
        q,
    ) by {
        if q.0 == x - 1 {
            assert(point(around[0]) == q);
        } else if q.1 == y - 1 {
            assert(point(around[n_left]) == q);
        } else if q.0 == x + 1 {
            assert(point(around[n_left + n_above]) == q);
        } else {
            assert(point(around[n_left + n_above + n_right]) == q);
        }
    }
}

/// The pixels around `(x, y)` that lie on the grid, at most four.
pub fn neighbors(x: usize, y: usize, width: usize, height: usize) -> (around: Vec<(usize, usize)>)
    requires
        x < width,
        y < height,
    ensures
        around@ == neighbors_of(x, y, width, height),
{
    let mut around: Vec<(usize, usize)> = Vec::with_capacity(4);
    if x > 0 {
        around.push((x - 1, y));
    }
    if y > 0 {
        around.push((x, y - 1));
    }
    if x < width - 1 {
        around.push((x + 1, y));
    }
    if y < height - 1 {
        around.push((x, y + 1));
    }
    proof {
        assert(around@ =~= neighbors_of(x, y, width, height));
    }
    around
}

} // verus!
