//! Picking the four largest alignment rings and putting them in the order
//! top left, top right, bottom right, bottom left.
//!
//! All the targets of a mesh lie in one image, `w` wide and `h` tall, so the
//! ring that fills the larger part of the image is the one with more pixels,
//! and the sums and differences of the fractions `x / w` and `y / h` are
//! compared after multiplying them by `w * h`.

use crate::target::Target;
use crate::target_mesh::{aligners, TargetMesh};
use vstd::prelude::*;

verus! {

/// Fewer than four alignment rings were found.
#[derive(Clone, Copy, Debug, PartialEq, Eq, Structural)]
pub struct AlignerCountError;

/// The corners of a sheet, in the order in which the rings are returned.
#[derive(Clone, Copy, Debug, PartialEq, Eq, Structural)]
pub enum Corner {
    TopLeft,
    TopRight,
    BottomRight,
    BottomLeft,
}

/// The first of the first `n` targets that no other of them exceeds in
/// pixels.
pub open spec fn first_largest(s: Seq<Target>, n: int) -> int
    decreases n,
{
    if n <= 1 {
        0
    } else {
        let best = first_largest(s, n - 1);
        if s[n - 1].pixels_filled > s[best].pixels_filled {
            n - 1
        } else {
            best
        }
    }
}

/// The `k` largest targets of `s`, largest first; of two of the same size
/// the one that comes first in `s` counts as the larger.
pub open spec fn largest_first(s: Seq<Target>, k: nat) -> Seq<Target>
    decreases k,
{
    if k == 0 || s.len() == 0 {
        Seq::empty()
    } else {
        let best = first_largest(s, s.len() as int);
        seq![s[best]] + largest_first(s.remove(best), (k - 1) as nat)
    }
}

/// What is left of `s` when its `k` largest targets have been taken out.
pub open spec fn leftover(s: Seq<Target>, k: nat) -> Seq<Target>
    decreases k,
{
    if k == 0 || s.len() == 0 {
        s
    } else {
        leftover(s.remove(first_largest(s, s.len() as int)), (k - 1) as nat)
    }
}

/// The centroids of the targets, in pixels.
pub open spec fn centroids(s: Seq<Target>) -> Seq<(usize, usize)> {
    Seq::new(s.len(), |i: int| (s[i].mean_x, s[i].mean_y))
}

/// `x / w + y / h`, times `w * h`: small at the top left, large at the
/// bottom right.
pub open spec fn falling(p: (usize, usize), w: int, h: int) -> int {
    p.0 * h + p.1 * w
}

/// `x / w - y / h`, times `w * h`: large at the top right, small at the
/// bottom left.
pub open spec fn rising(p: (usize, usize), w: int, h: int) -> int {
    p.0 * h - p.1 * w
}

/// Whether `a` lies further towards `corner` than `b`.
pub open spec fn beats(corner: Corner, a: (usize, usize), b: (usize, usize), w: int, h: int) -> bool {
    match corner {
        Corner::TopLeft => falling(a, w, h) < falling(b, w, h),
        Corner::TopRight => rising(a, w, h) > rising(b, w, h),
        Corner::BottomRight => falling(a, w, h) > falling(b, w, h),
        Corner::BottomLeft => rising(a, w, h) < rising(b, w, h),
    }
}

/// The first of the first `n` points that none of them beats towards
/// `corner`.
pub open spec fn first_best(points: Seq<(usize, usize)>, corner: Corner, w: int, h: int, n: int) -> int
    decreases n,
{
    if n <= 1 {
        0
    } else {
        let best = first_best(points, corner, w, h, n - 1);
        if beats(corner, points[n - 1], points[best], w, h) {
            n - 1
        } else {
            best
        }
    }
}

/// The point of `points` that lies furthest towards `corner`.
pub open spec fn furthest(points: Seq<(usize, usize)>, corner: Corner, w: int, h: int) -> int {
    first_best(points, corner, w, h, points.len() as int)
}

/// Four points in the order top left, top right, bottom right, bottom left:
/// each corner takes the point that lies furthest towards it among those
/// that are left.
pub open spec fn corner_order(points: Seq<(usize, usize)>, w: int, h: int) -> Seq<(usize, usize)> {
    let i0 = furthest(points, Corner::TopLeft, w, h);
    let rest1 = points.remove(i0);
    let i1 = furthest(rest1, Corner::TopRight, w, h);
    let rest2 = rest1.remove(i1);
    let i2 = furthest(rest2, Corner::BottomRight, w, h);
    let rest3 = rest2.remove(i2);
    let i3 = furthest(rest3, Corner::BottomLeft, w, h);
    seq![points[i0], rest1[i1], rest2[i2], rest3[i3]]
}

proof fn lemma_first_largest(s: Seq<Target>, n: int)
    requires
        1 <= n <= s.len(),
    ensures
        0 <= first_largest(s, n) < n,
        forall|j: int|
            0 <= j < n ==> (#[trigger] s[j]).pixels_filled <= s[first_largest(s, n)].pixels_filled,
        forall|j: int|
            0 <= j < first_largest(s, n) ==> (#[trigger] s[j]).pixels_filled < s[first_largest(
                s,
                n,
            )].pixels_filled,
    decreases n,
{
    if n > 1 {
        lemma_first_largest(s, n - 1);
    }
}

proof fn lemma_first_best(points: Seq<(usize, usize)>, corner: Corner, w: int, h: int, n: int)
    requires
        1 <= n <= points.len(),
    ensures
        0 <= first_best(points, corner, w, h, n) < n,
        forall|j: int|
            0 <= j < n ==> !beats(
                corner,
                #[trigger] points[j],
                points[first_best(points, corner, w, h, n)],
                w,
                h,
            ),
    decreases n,
{
    if n > 1 {
        lemma_first_best(points, corner, w, h, n - 1);
    }
}

/// Takes out of `found` the first target that no other exceeds in pixels.
fn remove_largest(found: &mut Vec<Target>) -> (largest: Target)
    requires
        old(found)@.len() > 0,
    ensures
        largest == old(found)@[first_largest(old(found)@, old(found)@.len() as int)],
        final(found)@ == old(found)@.remove(first_largest(old(found)@, old(found)@.len() as int)),
{
    let mut best: usize = 0;
    let mut i: usize = 1;
    while i < found.len()
        invariant
            1 <= i <= found.len(),
            found@ == old(found)@,
            best == first_largest(found@, i as int),
            best < i,
        decreases found.len() - i,
    {
        if found[i].pixels_filled > found[best].pixels_filled {
            best = i;
        }
        i += 1;
    }
    found.remove(best)
}

/// Takes out of `vec` the first point that none beats towards `corner`, in
/// an image `image_base` wide and `image_height` tall.
pub fn remove_max_by(
    vec: &mut Vec<(usize, usize)>,
    corner: Corner,
    image_base: usize,
    image_height: usize,
) -> (removed: (usize, usize))
    requires
        old(vec)@.len() > 0,
        image_base * image_height <= usize::MAX,
        forall|i: int|
            0 <= i < old(vec)@.len() ==> (#[trigger] old(vec)@[i]).0 < image_base && old(vec)@[i].1
                < image_height,
    ensures
        removed == old(vec)@[furthest(old(vec)@, corner, image_base as int, image_height as int)],
        final(vec)@ == old(vec)@.remove(
            furthest(old(vec)@, corner, image_base as int, image_height as int),
        ),
{
    let mut max_index: usize = 0;
    let mut i: usize = 1;
    while i < vec.len()
        invariant
            1 <= i <= vec.len(),
            vec@ == old(vec)@,
            image_base * image_height <= usize::MAX,
            forall|k: int|
                0 <= k < vec@.len() ==> (#[trigger] vec@[k]).0 < image_base && vec@[k].1
                    < image_height,
            max_index == first_best(vec@, corner, image_base as int, image_height as int, i as int),
            max_index < i,
        decreases vec.len() - i,
    {
        if lies_further(corner, vec[i], vec[max_index], image_base, image_height) {
            max_index = i;
        }
        i += 1;
    }
    vec.remove(max_index)
}

/// Whether `a` lies further towards `corner` than `b`.
fn lies_further(
    corner: Corner,
    a: (usize, usize),
    b: (usize, usize),
    image_base: usize,
    image_height: usize,
) -> (further: bool)
    requires
        image_base * image_height <= usize::MAX,
        a.0 < image_base,
        a.1 < image_height,
        b.0 < image_base,
        b.1 < image_height,
    ensures
        further == beats(corner, a, b, image_base as int, image_height as int),
{
    proof {
        lemma_product_fits(a.0 as int, image_base as int, image_height as int);
        lemma_product_fits(b.0 as int, image_base as int, image_height as int);
        lemma_product_fits(a.1 as int, image_height as int, image_base as int);
        lemma_product_fits(b.1 as int, image_height as int, image_base as int);
    }
    let ax: u128 = (a.0 as u128) * (image_height as u128);
    let ay: u128 = (a.1 as u128) * (image_base as u128);
    let bx: u128 = (b.0 as u128) * (image_height as u128);
    let by: u128 = (b.1 as u128) * (image_base as u128);
    match corner {
        Corner::TopLeft => ax + ay < bx + by,
        Corner::TopRight => ax + by > bx + ay,
        Corner::BottomRight => ax + ay > bx + by,
        Corner::BottomLeft => ax + by < bx + ay,
    }
}

proof fn lemma_product_fits(x: int, limit: int, other: int)
    requires
        0 <= x < limit,
        0 <= other,
    ensures
        0 <= x * other <= limit * other,
        x * other == other * x,
        limit * other == other * limit,
{
    assert(0 <= x * other <= limit * other) by (nonlinear_arith)
        requires
            0 <= x < limit,
            0 <= other,
    ;
    assert(x * other == other * x) by (nonlinear_arith);
    assert(limit * other == other * limit) by (nonlinear_arith);
}

impl TargetMesh {
    /// The centroids of the four largest alignment rings, in pixels of the
    /// image, in the order top left, top right, bottom right, bottom left.
    /// Fails if and only if there are fewer than four rings.
    ///
    /// Of two rings of the same size the one that was found first counts as
    /// the larger, and of two points that lie equally far towards a corner
    /// the larger ring takes the corner.
    pub fn get_aligner_centers(&self) -> (centers: Result<Vec<(usize, usize)>, AlignerCountError>)
        requires
            self.well_formed(),
        ensures
            centers is Err <==> aligners(self.targets@).len() < 4,
            centers is Ok ==> centers.unwrap()@ == corner_order(
                centroids(largest_first(aligners(self.targets@), 4)),
                self.image_base(),
                self.image_height(),
            ),
    {
        let mut found: Vec<Target> = Vec::new();
        let mut i: usize = 0;
        proof {
            assert(self.targets@.take(0) =~= Seq::empty());
        }
        while i < self.targets.len()
            invariant
                i <= self.targets.len(),
                found@ == aligners(self.targets@.take(i as int)),
                forall|k: int|
                    0 <= k < found@.len() ==> {
                        &&& (#[trigger] found@[k]).well_formed()
                        &&& found@[k].image_base == self.image_base()
                        &&& found@[k].image_height == self.image_height()
                    },
                self.well_formed(),
            decreases self.targets.len() - i,
        {
            let target = self.targets[i];
            proof {
                let longer = self.targets@.take(i + 1);
                assert(longer.drop_last() =~= self.targets@.take(i as int));
                assert(longer.last() == target);
            }
            if target.is_aligner() {
                found.push(target);
            }
            i += 1;
        }
        proof {
            assert(self.targets@.take(i as int) =~= self.targets@);
        }
        if found.len() < 4 {
            return Err(AlignerCountError);
        }
        let image_base = found[0].image_base;
        let image_height = found[0].image_height;
        let ghost all = found@;
        let mut points: Vec<(usize, usize)> = Vec::new();
        let mut k: usize = 0;
        while k < 4
            invariant
                k <= 4,
                found@.len() + k == all.len(),
                all.len() >= 4,
                found@ == leftover(all, k as nat),
                points@ == centroids(largest_first(all, k as nat)),
                points@.len() == k,
                image_base == self.image_base(),
                image_height == self.image_height(),
                image_base * image_height <= usize::MAX,
                forall|j: int|
                    0 <= j < found@.len() ==> {
                        &&& (#[trigger] found@[j]).well_formed()
                        &&& found@[j].image_base == image_base
                        &&& found@[j].image_height == image_height
                    },
                forall|j: int|
                    0 <= j < points@.len() ==> (#[trigger] points@[j]).0 < image_base
                        && points@[j].1 < image_height,
            decreases 4 - k,
        {
            let ghost rest = found@;
            proof {
                lemma_first_largest(rest, rest.len() as int);
            }
            let largest = remove_largest(&mut found);
            points.push((largest.mean_x, largest.mean_y));
            proof {
                lemma_take_one_more(all, k as nat);
                assert(points@ =~= centroids(largest_first(all, (k + 1) as nat)));
            }
            k += 1;
        }
        let ghost w = image_base as int;
        let ghost h = image_height as int;
        let ghost four = points@;
        proof {
            lemma_first_best(four, Corner::TopLeft, w, h, 4);
        }
        let top_left = remove_max_by(&mut points, Corner::TopLeft, image_base, image_height);
        proof {
            lemma_first_best(points@, Corner::TopRight, w, h, 3);
        }
        let top_right = remove_max_by(&mut points, Corner::TopRight, image_base, image_height);
        proof {
            lemma_first_best(points@, Corner::BottomRight, w, h, 2);
        }
        let bottom_right = remove_max_by(
            &mut points,
            Corner::BottomRight,
            image_base,
            image_height,
        );
        let bottom_left = remove_max_by(&mut points, Corner::BottomLeft, image_base, image_height);
        let mut sorted_centers: Vec<(usize, usize)> = Vec::with_capacity(4);
        sorted_centers.push(top_left);
        sorted_centers.push(top_right);
        sorted_centers.push(bottom_right);
        sorted_centers.push(bottom_left);
        proof {
            assert(sorted_centers@ =~= corner_order(four, w, h));
        }
        Ok(sorted_centers)
    }
}

/// Taking `k + 1` targets is taking `k` and then the largest of what is
/// left.
proof fn lemma_take_one_more(s: Seq<Target>, k: nat)
    requires
        k < s.len(),
    ensures
        leftover(s, k).len() == s.len() - k,
        largest_first(s, k).len() == k,
        largest_first(s, k + 1) == largest_first(s, k).push(
            leftover(s, k)[first_largest(leftover(s, k), leftover(s, k).len() as int)],
        ),
        leftover(s, k + 1) == leftover(s, k).remove(
            first_largest(leftover(s, k), leftover(s, k).len() as int),
        ),
    decreases k,
{
    let best = first_largest(s, s.len() as int);
    lemma_first_largest(s, s.len() as int);
    if k == 0 {
        assert(leftover(s, 1) == leftover(s.remove(best), 0));
        assert(largest_first(s.remove(best), 0) =~= Seq::empty());
        assert(largest_first(s, 1) =~= largest_first(s, 0).push(s[best]));
    } else {
        let rest = s.remove(best);
        lemma_take_one_more(rest, (k - 1) as nat);
        assert(leftover(s, k + 1) == leftover(rest, k));
        assert(leftover(s, k) == leftover(rest, (k - 1) as nat));
        assert(largest_first(s, k + 1) == seq![s[best]] + largest_first(rest, k));
        assert(largest_first(s, k) == seq![s[best]] + largest_first(rest, (k - 1) as nat));
        assert(largest_first(s, k + 1) =~= largest_first(s, k).push(
            leftover(s, k)[first_largest(leftover(s, k), leftover(s, k).len() as int)],
        ));
    }
}

/// The `k` targets taken are the `k` largest: together with what is left
/// they are the targets of `s`, each as often as in `s`; none that is left has
/// more pixels than one that was taken; and those taken stand largest first.
pub proof fn lemma_largest_are_largest(s: Seq<Target>, k: nat)
    requires
        k <= s.len(),
    ensures
        largest_first(s, k).len() == k,
        leftover(s, k).len() == s.len() - k,
        (largest_first(s, k) + leftover(s, k)).to_multiset() == s.to_multiset(),
        forall|i: int, j: int|
            0 <= i < k && 0 <= j < leftover(s, k).len() ==> (#[trigger] leftover(
                s,
                k,
            )[j]).pixels_filled <= (#[trigger] largest_first(s, k)[i]).pixels_filled,
        forall|i: int, j: int|
            0 <= i < j < k ==> (#[trigger] largest_first(s, k)[i]).pixels_filled >= (
            #[trigger] largest_first(s, k)[j]).pixels_filled,
    decreases k,
{
    broadcast use vstd::seq_lib::group_to_multiset_ensures;

    let top = largest_first(s, k);
    let left = leftover(s, k);
    if k == 0 {
        assert(top + left =~= s);
    } else {
        let best = first_largest(s, s.len() as int);
        lemma_first_largest(s, s.len() as int);
        let rest = s.remove(best);
        let top_rest = largest_first(rest, (k - 1) as nat);
        let left_rest = leftover(rest, (k - 1) as nat);
        lemma_largest_are_largest(rest, (k - 1) as nat);
        assert(top == seq![s[best]] + top_rest);
        assert(left == left_rest);
        let joined = top_rest + left_rest;
        assert(top + left =~= joined.insert(0, s[best]));
        assert(joined.to_multiset() == rest.to_multiset());
        assert(rest.to_multiset() == s.to_multiset().remove(s[best]));
        assert(s.contains(s[best]));
        assert(s.to_multiset().count(s[best]) > 0);
        assert(s.to_multiset().remove(s[best]).insert(s[best]) =~= s.to_multiset());
        assert forall|x: Target| joined.contains(x) implies x.pixels_filled
            <= s[best].pixels_filled by {
            assert(joined.to_multiset().count(x) > 0);
            assert(rest.to_multiset().count(x) > 0);
            assert(rest.contains(x));
            let m = choose|m: int| 0 <= m < rest.len() && rest[m] == x;
            if m < best {
                assert(rest[m] == s[m]);
            } else {
                assert(rest[m] == s[m + 1]);
            }
        }
        assert forall|i: int, j: int| 0 <= i < k && 0 <= j < left.len() implies (#[trigger] left[j]).pixels_filled
            <= (#[trigger] top[i]).pixels_filled by {
            if i == 0 {
                assert(joined[top_rest.len() + j] == left[j]);
                assert(joined.contains(left[j]));
            } else {
                assert(top[i] == top_rest[i - 1]);
            }
        }
        assert forall|i: int, j: int| 0 <= i < j < k implies (#[trigger] top[i]).pixels_filled >= (
        #[trigger] top[j]).pixels_filled by {
            assert(top[j] == top_rest[j - 1]);
            if i == 0 {
                assert(joined[j - 1] == top[j]);
                assert(joined.contains(top[j]));
            } else {
                assert(top[i] == top_rest[i - 1]);
            }
        }
    }
}

/// The four corners are the four points, and each corner holds the point
/// that lies furthest towards it among those that the corners before it
/// left: the top left has the least `x / w + y / h` of all four, the top
/// right the greatest `x / w - y / h` of the other three, the bottom right
/// the greater `x / w + y / h` of the last two.
pub proof fn lemma_corner_order(points: Seq<(usize, usize)>, w: int, h: int)
    requires
        points.len() == 4,
    ensures
        corner_order(points, w, h).len() == 4,
        corner_order(points, w, h).to_multiset() == points.to_multiset(),
        forall|j: int|
            0 <= j < 4 ==> falling(corner_order(points, w, h)[0], w, h) <= falling(
                #[trigger] corner_order(points, w, h)[j],
                w,
                h,
            ),
        forall|j: int|
            1 <= j < 4 ==> rising(corner_order(points, w, h)[1], w, h) >= rising(
                #[trigger] corner_order(points, w, h)[j],
                w,
                h,
            ),
        forall|j: int|
            2 <= j < 4 ==> falling(corner_order(points, w, h)[2], w, h) >= falling(
                #[trigger] corner_order(points, w, h)[j],
                w,
                h,
            ),
{
    broadcast use vstd::seq_lib::group_to_multiset_ensures;

    let i0 = furthest(points, Corner::TopLeft, w, h);
    lemma_first_best(points, Corner::TopLeft, w, h, 4);
    let rest1 = points.remove(i0);
    let i1 = furthest(rest1, Corner::TopRight, w, h);
    lemma_first_best(rest1, Corner::TopRight, w, h, 3);
    let rest2 = rest1.remove(i1);
    let i2 = furthest(rest2, Corner::BottomRight, w, h);
    lemma_first_best(rest2, Corner::BottomRight, w, h, 2);
    let rest3 = rest2.remove(i2);
    let i3 = furthest(rest3, Corner::BottomLeft, w, h);
    assert(i3 == 0);
    let c = corner_order(points, w, h);
    assert(c == seq![points[i0], rest1[i1], rest2[i2], rest3[0]]);
    assert(rest3 =~= seq![rest3[0]]);
    assert(rest2 =~= rest3.insert(i2, rest2[i2]));
    assert(rest1 =~= rest2.insert(i1, rest1[i1]));
    assert(points =~= rest1.insert(i0, points[i0]));
    assert(c =~= Seq::<(usize, usize)>::empty().push(points[i0]).push(rest1[i1]).push(
        rest2[i2],
    ).push(rest3[0]));
    assert(rest3.to_multiset() =~= Seq::<(usize, usize)>::empty().push(rest3[0]).to_multiset());
    assert(c.to_multiset() =~= points.to_multiset());
    assert(forall|m: int| 0 <= m < 3 ==> #[trigger] rest1[m] == points[if m < i0 {
        m
    } else {
        m + 1
    }]);
    assert(forall|m: int| 0 <= m < 2 ==> #[trigger] rest2[m] == rest1[if m < i1 {
        m
    } else {
        m + 1
    }]);
    assert(forall|m: int| 0 <= m < 1 ==> #[trigger] rest3[m] == rest2[if m < i2 {
        m
    } else {
        m + 1
    }]);
    assert(!beats(Corner::TopLeft, points[0], points[i0], w, h));
    assert(!beats(Corner::TopLeft, points[1], points[i0], w, h));
    assert(!beats(Corner::TopLeft, points[2], points[i0], w, h));
    assert(!beats(Corner::TopLeft, points[3], points[i0], w, h));
    assert(!beats(Corner::TopRight, rest1[0], rest1[i1], w, h));
    assert(!beats(Corner::TopRight, rest1[1], rest1[i1], w, h));
    assert(!beats(Corner::TopRight, rest1[2], rest1[i1], w, h));
    assert(!beats(Corner::BottomRight, rest2[0], rest2[i2], w, h));
    assert(!beats(Corner::BottomRight, rest2[1], rest2[i2], w, h));
}

} // verus!
