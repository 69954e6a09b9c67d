//! The scan that finds every connected region of a mask, each exactly once.

use crate::blob::Blob;
use crate::boolean_matrix::{BooleanMatrix, MaskView};
use crate::flood_fill::flood_fill;
use crate::region::{
    closed_in, component, connected, lemma_closed_holds_component, lemma_closed_with_component,
    lemma_component_avoids_closed, lemma_connected_members, lemma_connected_refl,
    lemma_connected_sym, lemma_connected_trans, lemma_count_empty, lemma_grid_sum_union,
    pixel_count, precedes, Weight,
};
use vstd::prelude::*;

verus! {

/// Whether `p` is the first pixel of its region when the grid is read row by
/// row: it is set, and no pixel of its region comes before it.
pub open spec fn is_leader(mask: Set<(int, int)>, p: (int, int)) -> bool {
    mask.contains(p) && forall|q: (int, int)| connected(mask, p, q) ==> !precedes(q, p)
}

/// The leaders in row `y`, columns below `x_end`, left to right.
pub open spec fn row_leaders(mask: Set<(int, int)>, y: int, x_end: int) -> Seq<(int, int)>
    decreases x_end,
{
    if x_end <= 0 {
        Seq::empty()
    } else {
        let rest = row_leaders(mask, y, x_end - 1);
        if is_leader(mask, (x_end - 1, y)) {
            rest.push((x_end - 1, y))
        } else {
            rest
        }
    }
}

/// The leaders in the rows below `y_end` of a grid `width` wide, in reading
/// order.
pub open spec fn leaders(mask: Set<(int, int)>, width: int, y_end: int) -> Seq<(int, int)>
    decreases y_end,
{
    if y_end <= 0 {
        Seq::empty()
    } else {
        leaders(mask, width, y_end - 1) + row_leaders(mask, y_end - 1, width)
    }
}

/// The leaders that come before the pixel `at`, in reading order.
pub open spec fn leaders_before(mask: Set<(int, int)>, width: int, at: (int, int)) -> Seq<
    (int, int),
> {
    leaders(mask, width, at.1) + row_leaders(mask, at.1, at.0)
}

/// Whether `blobs` holds, in order, the measurements of the regions of the
/// pixels `first`.
pub open spec fn describe_all(blobs: Seq<Blob>, first: Seq<(int, int)>, mask: MaskView) -> bool {
    &&& blobs.len() == first.len()
    &&& forall|i: int|
        0 <= i < blobs.len() ==> (#[trigger] blobs[i]).describes(
            component(mask.set, first[i]),
            mask.width as int,
            mask.height as int,
        )
}

/// Whether `blobs` holds the measurements of every region of `mask`, one for
/// each, ordered by the regions' first pixels in reading order.
pub open spec fn measures_regions(blobs: Seq<Blob>, mask: MaskView) -> bool {
    describe_all(blobs, leaders(mask.set, mask.width as int, mask.height as int), mask)
}

/// The pixels of all the blobs together.
pub open spec fn total_pixels(blobs: Seq<Blob>) -> int
    decreases blobs.len(),
{
    if blobs.len() == 0 {
        0
    } else {
        total_pixels(blobs.drop_last()) + blobs.last().pixels_filled
    }
}

/// What the scan keeps true when it stands at the pixel `at`: what has been
/// seen is made of whole regions, and is exactly the regions that have a
/// pixel before `at`.
#[verifier::opaque]
pub open spec fn scan_invariant(mask: MaskView, seen: Set<(int, int)>, at: (int, int)) -> bool {
    &&& mask.bounded()
    &&& seen.subset_of(mask.set)
    &&& closed_in(mask.set, seen)
    &&& forall|q: (int, int)| mask.set.contains(q) && precedes(q, at) ==> seen.contains(q)
    &&& forall|q: (int, int)|
        seen.contains(q) ==> exists|r: (int, int)|
            mask.set.contains(r) && precedes(r, at) && #[trigger] connected(mask.set, r, q)
}

proof fn lemma_scan_begin(mask: MaskView)
    requires
        mask.bounded(),
    ensures
        scan_invariant(mask, Set::empty(), (0, 0)),
{
    reveal(scan_invariant);
}

/// At a set pixel that has not been seen a new region begins.
proof fn lemma_scan_new_region(mask: MaskView, seen: Set<(int, int)>, p: (int, int))
    requires
        scan_invariant(mask, seen, p),
        mask.set.contains(p),
        !seen.contains(p),
    ensures
        is_leader(mask.set, p),
        component(mask.set.difference(seen), p) == component(mask.set, p),
        seen.disjoint(component(mask.set, p)),
        scan_invariant(mask, seen.union(component(mask.set, p)), (p.0 + 1, p.1)),
{
    reveal(scan_invariant);
    let region = component(mask.set, p);
    let more = seen.union(region);
    let next = (p.0 + 1, p.1);
    assert forall|q: (int, int)| connected(mask.set, p, q) implies !precedes(q, p) by {
        if precedes(q, p) {
            lemma_connected_members(mask.set, p, q);
            lemma_connected_sym(mask.set, p, q);
            lemma_closed_holds_component(mask.set, seen, q, p);
        }
    }
    lemma_component_avoids_closed(mask.set, seen, p);
    assert forall|q: (int, int)| !(seen.contains(q) && region.contains(q)) by {
        if seen.contains(q) && region.contains(q) {
            lemma_connected_sym(mask.set, p, q);
            lemma_closed_holds_component(mask.set, seen, q, p);
        }
    }
    lemma_closed_with_component(mask.set, seen, p);
    lemma_connected_refl(mask.set, p);
    assert forall|q: (int, int)| more.contains(q) implies mask.set.contains(q) by {
        if region.contains(q) {
            lemma_connected_members(mask.set, p, q);
        }
    }
    assert forall|q: (int, int)| more.contains(q) implies exists|r: (int, int)|
        mask.set.contains(r) && precedes(r, next) && #[trigger] connected(mask.set, r, q) by {
        if seen.contains(q) {
            let r = choose|r: (int, int)|
                mask.set.contains(r) && precedes(r, p) && #[trigger] connected(mask.set, r, q);
            assert(mask.set.contains(r) && precedes(r, next) && connected(mask.set, r, q));
        } else {
            assert(mask.set.contains(p) && precedes(p, next) && connected(mask.set, p, q));
        }
    }
    assert forall|q: (int, int)| mask.set.contains(q) && precedes(q, next) implies more.contains(
        q,
    ) by {
        if q == p {
            assert(region.contains(p));
        } else {
            assert(precedes(q, p));
        }
    }
}

/// A pixel that has been seen is not the first of its region.
proof fn lemma_seen_is_no_leader(mask: MaskView, seen: Set<(int, int)>, p: (int, int))
    requires
        scan_invariant(mask, seen, p),
        seen.contains(p),
    ensures
        !is_leader(mask.set, p),
{
    let r = choose|r: (int, int)|
        mask.set.contains(r) && precedes(r, p) && #[trigger] connected(mask.set, r, p);
    assert(mask.set.contains(r) && precedes(r, p) && connected(mask.set, r, p)) by {
        reveal(scan_invariant);
    }
    lemma_connected_sym(mask.set, r, p);
}

/// A pixel that is not set, or has been seen, begins no region.
proof fn lemma_scan_pass(mask: MaskView, seen: Set<(int, int)>, p: (int, int))
    requires
        scan_invariant(mask, seen, p),
        !mask.set.contains(p) || seen.contains(p),
    ensures
        !is_leader(mask.set, p),
        scan_invariant(mask, seen, (p.0 + 1, p.1)),
{
    if seen.contains(p) {
        lemma_seen_is_no_leader(mask, seen, p);
    }
    let next = (p.0 + 1, p.1);
    assert forall|q: (int, int)| seen.contains(q) implies exists|r: (int, int)|
        mask.set.contains(r) && precedes(r, next) && #[trigger] connected(mask.set, r, q) by {
        let r = choose|r: (int, int)|
            mask.set.contains(r) && precedes(r, p) && #[trigger] connected(mask.set, r, q);
        assert(mask.set.contains(r) && precedes(r, p) && connected(mask.set, r, q)) by {
            reveal(scan_invariant);
        }
        assert(mask.set.contains(r) && precedes(r, next) && connected(mask.set, r, q));
    }
    assert forall|q: (int, int)| mask.set.contains(q) && precedes(q, next) implies seen.contains(
        q,
    ) by {
        reveal(scan_invariant);
        if q != p {
            assert(precedes(q, p));
        }
    }
    assert(mask.bounded() && seen.subset_of(mask.set) && closed_in(mask.set, seen)) by {
        reveal(scan_invariant);
    }
    assert(scan_invariant(mask, seen, next)) by {
        reveal(scan_invariant);
    }
}

/// The end of one row is the beginning of the next.
proof fn lemma_scan_next_row(mask: MaskView, seen: Set<(int, int)>, y: int)
    requires
        scan_invariant(mask, seen, (mask.width as int, y)),
    ensures
        scan_invariant(mask, seen, (0, y + 1)),
{
    reveal(scan_invariant);
    let here = (mask.width as int, y);
    let next = (0int, y + 1);
    assert forall|q: (int, int)| seen.contains(q) implies exists|r: (int, int)|
        mask.set.contains(r) && precedes(r, next) && #[trigger] connected(mask.set, r, q) by {
        let r = choose|r: (int, int)|
            mask.set.contains(r) && precedes(r, here) && #[trigger] connected(mask.set, r, q);
        assert(mask.set.contains(r) && precedes(r, next) && connected(mask.set, r, q));
    }
    assert forall|q: (int, int)| mask.set.contains(q) && precedes(q, next) implies seen.contains(
        q,
    ) by {
        assert(mask.in_bounds(q.0, q.1));
        assert(precedes(q, here));
    }
}

/// When the scan has passed the last row, every set pixel has been seen.
proof fn lemma_scan_end(mask: MaskView, seen: Set<(int, int)>)
    requires
        scan_invariant(mask, seen, (0, mask.height as int)),
    ensures
        seen == mask.set,
{
    reveal(scan_invariant);
    assert forall|q: (int, int)| mask.set.contains(q) implies seen.contains(q) by {
        assert(mask.in_bounds(q.0, q.1));
        assert(precedes(q, (0, mask.height as int)));
    }
    assert(seen =~= mask.set);
}

/// The regions of a mask, measured: one blob for each four-connected region,
/// ordered by the regions' first pixels in reading order.
pub fn extract_blobs(target_candidates: &BooleanMatrix) -> (blobs: Vec<Blob>)
    requires
        target_candidates.well_formed(),
    ensures
        measures_regions(blobs@, target_candidates@),
        total_pixels(blobs@) == pixel_count(
            target_candidates@.set,
            target_candidates@.width as int,
            target_candidates@.height as int,
        ),
        forall|i: int|
            0 <= i < blobs@.len() ==> (#[trigger] blobs@[i]).valid() && blobs@[i].within(
                target_candidates@.width as int,
                target_candidates@.height as int,
            ),
{
    let (base, height) = target_candidates.base_height();
    proof {
        target_candidates.lemma_well_formed();
    }
    let mut has_seen = BooleanMatrix::all_false(base, height);
    let mut blobs: Vec<Blob> = Vec::new();
    let ghost mask = target_candidates@;
    let ghost w = base as int;
    let ghost h = height as int;
    proof {
        lemma_scan_begin(mask);
        lemma_count_empty(Weight::Unit, w, h);
        assert(leaders_before(mask.set, w, (0, 0)) =~= Seq::empty());
    }
    let mut y: usize = 0;
    while y < height
        invariant
            y <= height,
            target_candidates.well_formed(),
            mask == target_candidates@,
            w == base == mask.width,
            h == height == mask.height,
            has_seen.well_formed(),
            has_seen@.width == mask.width,
            has_seen@.height == mask.height,
            scan_invariant(mask, has_seen@.set, (0, y as int)),
            describe_all(blobs@, leaders_before(mask.set, w, (0, y as int)), mask),
            total_pixels(blobs@) == pixel_count(has_seen@.set, w, h),
            forall|i: int|
                0 <= i < blobs@.len() ==> (#[trigger] blobs@[i]).valid() && blobs@[i].within(w, h),
        decreases height - y,
    {
        let mut x: usize = 0;
        while x < base
            invariant
                x <= base,
                y < height,
                target_candidates.well_formed(),
                mask == target_candidates@,
                w == base == mask.width,
                h == height == mask.height,
                has_seen.well_formed(),
                has_seen@.width == mask.width,
                has_seen@.height == mask.height,
                scan_invariant(mask, has_seen@.set, (x as int, y as int)),
                describe_all(blobs@, leaders_before(mask.set, w, (x as int, y as int)), mask),
                total_pixels(blobs@) == pixel_count(has_seen@.set, w, h),
                forall|i: int|
                    0 <= i < blobs@.len() ==> (#[trigger] blobs@[i]).valid() && blobs@[i].within(
                        w,
                        h,
                    ),
            decreases base - x,
        {
            let ghost p = (x as int, y as int);
            let ghost seen_before = has_seen@.set;
            let ghost found = leaders_before(mask.set, w, p);
            let ghost blobs_before = blobs@;
            if target_candidates.is_set(x, y) && !has_seen.is_set(x, y) {
                proof {
                    lemma_scan_new_region(mask, seen_before, p);
                }
                let blob = flood_fill(x, y, target_candidates, &mut has_seen);
                blobs.push(blob);
                proof {
                    lemma_grid_sum_union(
                        seen_before,
                        component(mask.set, p),
                        Weight::Unit,
                        w,
                        h,
                    );
                    assert(blobs@.drop_last() =~= blobs_before);
                    assert(leaders_before(mask.set, w, (x + 1, y as int)) =~= found.push(p));
                }
            } else {
                proof {
                    lemma_scan_pass(mask, seen_before, p);
                    assert(leaders_before(mask.set, w, (x + 1, y as int)) =~= found);
                }
            }
            x += 1;
        }
        proof {
            lemma_scan_next_row(mask, has_seen@.set, y as int);
            assert(leaders_before(mask.set, w, (0, y + 1)) =~= leaders_before(
                mask.set,
                w,
                (w, y as int),
            ));
        }
        y += 1;
    }
    proof {
        lemma_scan_end(mask, has_seen@.set);
        assert(leaders_before(mask.set, w, (0, h)) =~= leaders(mask.set, w, h));
    }
    blobs
}

/// The leaders of a row are leaders, stand in that row from left to right,
/// and none is missing.
proof fn lemma_row_leaders(mask: Set<(int, int)>, y: int, x_end: int)
    ensures
        forall|i: int|
            0 <= i < row_leaders(mask, y, x_end).len() ==> {
                let q = #[trigger] row_leaders(mask, y, x_end)[i];
                is_leader(mask, q) && q.1 == y && 0 <= q.0 < x_end
            },
        forall|i: int, j: int|
            0 <= i < j < row_leaders(mask, y, x_end).len() ==> (#[trigger] row_leaders(
                mask,
                y,
                x_end,
            )[i]).0 < (#[trigger] row_leaders(mask, y, x_end)[j]).0,
        forall|x: int|
            0 <= x < x_end && is_leader(mask, (x, y)) ==> exists|i: int|
                0 <= i < row_leaders(mask, y, x_end).len() && #[trigger] row_leaders(
                    mask,
                    y,
                    x_end,
                )[i] == (x, y),
    decreases x_end,
{
    if x_end > 0 {
        lemma_row_leaders(mask, y, x_end - 1);
        let rest = row_leaders(mask, y, x_end - 1);
        let all = row_leaders(mask, y, x_end);
        assert forall|x: int| 0 <= x < x_end && is_leader(mask, (x, y)) implies exists|i: int|
            0 <= i < all.len() && #[trigger] all[i] == (x, y) by {
            if x < x_end - 1 {
                let i = choose|i: int| 0 <= i < rest.len() && #[trigger] rest[i] == (x, y);
                assert(all[i] == (x, y));
            } else {
                assert(all[all.len() - 1] == (x, y));
            }
        }
    }
}

/// The listed leaders are leaders on the grid, stand in reading order, and
/// none is missing.
proof fn lemma_leaders(mask: Set<(int, int)>, width: int, y_end: int)
    ensures
        forall|i: int|
            0 <= i < leaders(mask, width, y_end).len() ==> {
                let q = #[trigger] leaders(mask, width, y_end)[i];
                is_leader(mask, q) && 0 <= q.1 < y_end && 0 <= q.0 < width
            },
        forall|i: int, j: int|
            0 <= i < j < leaders(mask, width, y_end).len() ==> precedes(
                #[trigger] leaders(mask, width, y_end)[i],
                #[trigger] leaders(mask, width, y_end)[j],
            ),
        forall|q: (int, int)|
            0 <= q.0 < width && 0 <= q.1 < y_end && is_leader(mask, q) ==> exists|i: int|
                0 <= i < leaders(mask, width, y_end).len() && #[trigger] leaders(
                    mask,
                    width,
                    y_end,
                )[i] == q,
    decreases y_end,
{
    if y_end > 0 {
        lemma_leaders(mask, width, y_end - 1);
        lemma_row_leaders(mask, y_end - 1, width);
        let above = leaders(mask, width, y_end - 1);
        let row = row_leaders(mask, y_end - 1, width);
        let all = leaders(mask, width, y_end);
        assert forall|i: int| 0 <= i < all.len() implies {
            let q = #[trigger] all[i];
            is_leader(mask, q) && 0 <= q.1 < y_end && 0 <= q.0 < width
        } by {
            if i < above.len() {
                assert(all[i] == above[i]);
            } else {
                assert(all[i] == row[i - above.len()]);
            }
        }
        assert forall|i: int, j: int| 0 <= i < j < all.len() implies precedes(
            #[trigger] all[i],
            #[trigger] all[j],
        ) by {
            if j < above.len() {
                assert(all[i] == above[i] && all[j] == above[j]);
            } else if i < above.len() {
                assert(all[i] == above[i] && all[j] == row[j - above.len()]);
            } else {
                assert(all[i] == row[i - above.len()] && all[j] == row[j - above.len()]);
            }
        }
        assert forall|q: (int, int)|
            0 <= q.0 < width && 0 <= q.1 < y_end && is_leader(mask, q) implies exists|i: int|
            0 <= i < all.len() && #[trigger] all[i] == q by {
            if q.1 < y_end - 1 {
                let i = choose|i: int| 0 <= i < above.len() && #[trigger] above[i] == q;
                assert(all[i] == q);
            } else {
                let i = choose|i: int| 0 <= i < row.len() && #[trigger] row[i] == (q.0, q.1);
                assert(all[above.len() + i] == q);
            }
        }
    }
}

/// The region of a set pixel has a first pixel.
proof fn lemma_leader_exists(mask: MaskView, p: (int, int)) -> (q: (int, int))
    requires
        mask.bounded(),
        mask.set.contains(p),
    ensures
        is_leader(mask.set, q),
        connected(mask.set, q, p),
    decreases p.1, p.0,
{
    if is_leader(mask.set, p) {
        lemma_connected_refl(mask.set, p);
        p
    } else {
        let r = choose|r: (int, int)| connected(mask.set, p, r) && precedes(r, p);
        lemma_connected_members(mask.set, p, r);
        assert(mask.in_bounds(r.0, r.1) && mask.in_bounds(p.0, p.1));
        let q = lemma_leader_exists(mask, r);
        lemma_connected_sym(mask.set, p, r);
        lemma_connected_trans(mask.set, q, r, p);
        q
    }
}

/// Every four-connected region of a mask is counted exactly once: each set
/// pixel is joined to one of the listed leaders, and to no second one.
/// So a sequence of blobs that measures the regions has one blob for each
/// region.
pub proof fn lemma_each_region_counted_once(mask: MaskView, p: (int, int))
    requires
        mask.bounded(),
        mask.set.contains(p),
    ensures
        exists|i: int|
            0 <= i < leaders(mask.set, mask.width as int, mask.height as int).len() && connected(
                mask.set,
                #[trigger] leaders(mask.set, mask.width as int, mask.height as int)[i],
                p,
            ),
        forall|i: int, j: int|
            0 <= i < leaders(mask.set, mask.width as int, mask.height as int).len() && 0 <= j
                < leaders(mask.set, mask.width as int, mask.height as int).len() && connected(
                mask.set,
                #[trigger] leaders(mask.set, mask.width as int, mask.height as int)[i],
                p,
            ) && connected(
                mask.set,
                #[trigger] leaders(mask.set, mask.width as int, mask.height as int)[j],
                p,
            ) ==> i == j,
{
    let w = mask.width as int;
    let h = mask.height as int;
    let all = leaders(mask.set, w, h);
    lemma_leaders(mask.set, w, h);
    let q = lemma_leader_exists(mask, p);
    assert(mask.in_bounds(q.0, q.1));
    let k = choose|k: int| 0 <= k < all.len() && #[trigger] all[k] == q;
    assert(connected(mask.set, all[k], p));
    assert forall|i: int, j: int|
        0 <= i < all.len() && 0 <= j < all.len() && connected(mask.set, #[trigger] all[i], p)
            && connected(mask.set, #[trigger] all[j], p) implies i == j by {
        if i != j {
            let (lo, hi) = if i < j {
                (i, j)
            } else {
                (j, i)
            };
            assert(precedes(all[lo], all[hi]));
            lemma_connected_sym(mask.set, all[lo], p);
            lemma_connected_trans(mask.set, all[hi], p, all[lo]);
            assert(is_leader(mask.set, all[hi]));
        }
    }
}

} // verus!
