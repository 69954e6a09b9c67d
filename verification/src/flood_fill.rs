//! The flood fill that measures one connected region of a mask.

use crate::blob::{
    holds, lemma_description_valid, lemma_mean_in_range, lemma_neighbors_of, neighbors,
    neighbors_of, point, Blob,
};
use crate::boolean_matrix::{BooleanMatrix, MaskView};
use crate::region::{
    adjacent, closed_in, component, connected, grid_sum, lemma_closed_holds_component,
    lemma_connected_members, lemma_connected_refl, lemma_connected_step, lemma_count_empty,
    lemma_count_within_grid, lemma_grid_sum_bounds, lemma_grid_sum_insert, pixel_count, Weight,
};
use vstd::prelude::*;

verus! {

/// The pixels of `around`, in order, that are candidates.
pub open spec fn candidates_among(around: Seq<(usize, usize)>, candidates: Set<(int, int)>) -> Seq<
    (usize, usize),
>
    decreases around.len(),
{
    if around.len() == 0 {
        Seq::empty()
    } else {
        let rest = candidates_among(around.drop_last(), candidates);
        if candidates.contains(point(around.last())) {
            rest.push(around.last())
        } else {
            rest
        }
    }
}

proof fn lemma_candidates_among(around: Seq<(usize, usize)>, candidates: Set<(int, int)>)
    ensures
        forall|i: int|
            0 <= i < candidates_among(around, candidates).len() ==> {
                let q = point(#[trigger] candidates_among(around, candidates)[i]);
                candidates.contains(q) && holds(around, q)
            },
        forall|j: int|
            0 <= j < around.len() && candidates.contains(point(#[trigger] around[j])) ==> holds(
                candidates_among(around, candidates),
                point(around[j]),
            ),
    decreases around.len(),
{
    let chosen = candidates_among(around, candidates);
    if around.len() > 0 {
        let shorter = around.drop_last();
        let rest = candidates_among(shorter, candidates);
        lemma_candidates_among(shorter, candidates);
        assert forall|i: int| 0 <= i < chosen.len() implies {
            let q = point(#[trigger] chosen[i]);
            candidates.contains(q) && holds(around, q)
        } by {
            let q = point(chosen[i]);
            if i < rest.len() {
                assert(chosen[i] == rest[i]);
                assert(holds(shorter, q));
                let j = choose|j: int| 0 <= j < shorter.len() && point(#[trigger] shorter[j]) == q;
                assert(point(around[j]) == q);
            } else {
                assert(point(around[around.len() - 1]) == q);
            }
        }
        assert forall|j: int|
            0 <= j < around.len() && candidates.contains(
                point(#[trigger] around[j]),
            ) implies holds(chosen, point(around[j])) by {
            let q = point(around[j]);
            if j < shorter.len() {
                assert(shorter[j] == around[j]);
                assert(holds(rest, q));
                let i = choose|i: int| 0 <= i < rest.len() && point(#[trigger] rest[i]) == q;
                assert(point(chosen[i]) == q);
            } else {
                assert(point(chosen[chosen.len() - 1]) == q);
            }
        }
    }
}

/// Pushes the candidates among `around` on the frontier, in order.
fn push_candidates(
    around: &Vec<(usize, usize)>,
    target_candidates: &BooleanMatrix,
    stack: &mut Vec<(usize, usize)>,
)
    requires
        target_candidates.well_formed(),
        forall|i: int|
            0 <= i < around@.len() ==> target_candidates@.in_bounds(
                (#[trigger] around@[i]).0 as int,
                around@[i].1 as int,
            ),
    ensures
        final(stack)@ == old(stack)@ + candidates_among(around@, target_candidates@.set),
{
    let mut k: usize = 0;
    proof {
        assert(around@.take(0) =~= Seq::empty());
        assert(stack@ =~= old(stack)@ + candidates_among(
            around@.take(0),
            target_candidates@.set,
        ));
    }
    while k < around.len()
        invariant
            k <= around.len(),
            target_candidates.well_formed(),
            forall|i: int|
                0 <= i < around@.len() ==> target_candidates@.in_bounds(
                    (#[trigger] around@[i]).0 as int,
                    around@[i].1 as int,
                ),
            stack@ == old(stack)@ + candidates_among(
                around@.take(k as int),
                target_candidates@.set,
            ),
        decreases around.len() - k,
    {
        let next = around[k];
        proof {
            let longer = around@.take(k + 1);
            assert(longer.drop_last() =~= around@.take(k as int));
            assert(longer.last() == next);
        }
        if target_candidates.is_set(next.0, next.1) {
            stack.push(next);
        }
        k += 1;
        proof {
            assert(stack@ =~= old(stack)@ + candidates_among(
                around@.take(k as int),
                target_candidates@.set,
            ));
        }
    }
    proof {
        assert(around@.take(k as int) =~= around@);
    }
}

/// What holds of the frontier while a fill runs: each pixel on it is a
/// candidate of the grid, and is reached from `start` unless it had been seen
/// before the fill began.
pub open spec fn frontier_sound(
    candidates: MaskView,
    open: Set<(int, int)>,
    start: (int, int),
    stack: Seq<(usize, usize)>,
) -> bool {
    forall|i: int|
        0 <= i < stack.len() ==> {
            let q = point(#[trigger] stack[i]);
            &&& candidates.in_bounds(q.0, q.1)
            &&& candidates.set.contains(q)
            &&& open.contains(q) ==> connected(open, start, q)
        }
}

/// Whether each candidate next to a pixel of `visited` has been seen or
/// waits on the frontier.
pub open spec fn frontier_covers(
    candidates: Set<(int, int)>,
    seen: Set<(int, int)>,
    visited: Set<(int, int)>,
    stack: Seq<(usize, usize)>,
) -> bool {
    forall|p: (int, int), q: (int, int)|
        visited.contains(p) && candidates.contains(q) && adjacent(p, q) ==> seen.contains(q)
            || holds(stack, q)
}

/// What a fill keeps true from one step to the next.  `before` holds what had
/// been seen when it began, `visited` what it has counted so far.
#[verifier::opaque]
pub open spec fn fill_invariant(
    candidates: MaskView,
    before: Set<(int, int)>,
    start: (usize, usize),
    seen: Set<(int, int)>,
    visited: Set<(int, int)>,
    stack: Seq<(usize, usize)>,
) -> bool {
    let open = candidates.set.difference(before);
    &&& candidates.bounded()
    &&& open.contains(point(start))
    &&& seen == before.union(visited)
    &&& visited.subset_of(component(open, point(start)))
    &&& frontier_sound(candidates, open, point(start), stack)
    &&& frontier_covers(candidates.set, seen, visited, stack)
    &&& visited.contains(point(start)) || holds(stack, point(start))
    &&& visited == Set::<(int, int)>::empty() ==> stack == seq![start]
}

proof fn lemma_fill_begin(candidates: MaskView, before: Set<(int, int)>, start: (usize, usize))
    requires
        candidates.bounded(),
        candidates.set.contains(point(start)),
        !before.contains(point(start)),
    ensures
        fill_invariant(candidates, before, start, before, Set::empty(), seq![start]),
{
    reveal(fill_invariant);
    let open = candidates.set.difference(before);
    let stack = seq![start];
    lemma_connected_refl(open, point(start));
    assert(point(stack[0]) == point(start));
    assert(before.union(Set::empty()) =~= before);
}

/// The pixel on top of the frontier lies on the grid.
proof fn lemma_fill_top(
    candidates: MaskView,
    before: Set<(int, int)>,
    start: (usize, usize),
    seen: Set<(int, int)>,
    visited: Set<(int, int)>,
    stack: Seq<(usize, usize)>,
)
    requires
        fill_invariant(candidates, before, start, seen, visited, stack),
        stack.len() > 0,
    ensures
        candidates.in_bounds(stack.last().0 as int, stack.last().1 as int),
        visited.subset_of(seen),
        forall|p: (int, int)| #[trigger] visited.contains(p) ==> candidates.in_bounds(p.0, p.1),
{
    reveal(fill_invariant);
    assert(candidates.in_bounds(point(stack[stack.len() - 1]).0, point(stack[stack.len() - 1]).1));
    let open = candidates.set.difference(before);
    assert forall|p: (int, int)| #[trigger] visited.contains(p) implies candidates.in_bounds(
        p.0,
        p.1,
    ) by {
        lemma_connected_members(open, point(start), p);
    }
}

/// A pixel that is popped and found seen leaves the invariant as it was.
proof fn lemma_fill_skip(
    candidates: MaskView,
    before: Set<(int, int)>,
    start: (usize, usize),
    seen: Set<(int, int)>,
    visited: Set<(int, int)>,
    stack: Seq<(usize, usize)>,
)
    requires
        fill_invariant(candidates, before, start, seen, visited, stack),
        stack.len() > 0,
        seen.contains(point(stack.last())),
    ensures
        fill_invariant(candidates, before, start, seen, visited, stack.drop_last()),
{
    reveal(fill_invariant);
    let rest = stack.drop_last();
    let p = point(stack.last());
    let open = candidates.set.difference(before);
    assert forall|q: (int, int)| holds(stack, q) implies holds(rest, q) || q == p by {
        let i = choose|i: int| 0 <= i < stack.len() && point(#[trigger] stack[i]) == q;
        if i < rest.len() {
            assert(point(rest[i]) == q);
        }
    }
    assert(frontier_sound(candidates, open, point(start), rest)) by {
        assert forall|i: int| 0 <= i < rest.len() implies {
            let q = point(#[trigger] rest[i]);
            &&& candidates.in_bounds(q.0, q.1)
            &&& candidates.set.contains(q)
            &&& open.contains(q) ==> connected(open, point(start), q)
        } by {
            assert(rest[i] == stack[i]);
        }
    }
    if visited == Set::<(int, int)>::empty() {
        assert(stack[0] == start);
        assert(seen =~= before);
    }
    if !visited.contains(point(start)) {
        assert(holds(stack, point(start)));
        assert(point(start) != p);
    }
}

/// A pixel that is popped and found new joins the region, and its candidate
/// neighbours join the frontier.
proof fn lemma_fill_visit(
    candidates: MaskView,
    before: Set<(int, int)>,
    start: (usize, usize),
    seen: Set<(int, int)>,
    visited: Set<(int, int)>,
    stack: Seq<(usize, usize)>,
    width: usize,
    height: usize,
)
    requires
        fill_invariant(candidates, before, start, seen, visited, stack),
        stack.len() > 0,
        !seen.contains(point(stack.last())),
        candidates.width == width,
        candidates.height == height,
    ensures
        fill_invariant(
            candidates,
            before,
            start,
            seen.insert(point(stack.last())),
            visited.insert(point(stack.last())),
            stack.drop_last() + candidates_among(
                neighbors_of(stack.last().0, stack.last().1, width, height),
                candidates.set,
            ),
        ),
        !visited.contains(point(stack.last())),
        visited == Set::<(int, int)>::empty() ==> stack.last() == start,
{
    reveal(fill_invariant);
    let top = stack.last();
    let p = point(top);
    let open = candidates.set.difference(before);
    let around = neighbors_of(top.0, top.1, width, height);
    let pushed = candidates_among(around, candidates.set);
    let rest = stack.drop_last();
    let next = rest + pushed;
    let seen_next = seen.insert(p);
    let visited_next = visited.insert(p);
    assert(point(stack[stack.len() - 1]) == p);
    assert(candidates.in_bounds(p.0, p.1));
    assert(open.contains(p));
    assert(connected(open, point(start), p));
    lemma_neighbors_of(top.0, top.1, width, height);
    lemma_candidates_among(around, candidates.set);
    assert(seen_next =~= before.union(visited_next));
    assert forall|q: (int, int)| holds(stack, q) implies holds(next, q) || q == p by {
        let i = choose|i: int| 0 <= i < stack.len() && point(#[trigger] stack[i]) == q;
        if i < rest.len() {
            assert(point(next[i]) == q);
        }
    }
    assert forall|q: (int, int)| holds(pushed, q) implies holds(next, q) by {
        let i = choose|i: int| 0 <= i < pushed.len() && point(#[trigger] pushed[i]) == q;
        assert(point(next[rest.len() + i]) == q);
    }
    assert(frontier_sound(candidates, open, point(start), next)) by {
        assert forall|i: int| 0 <= i < next.len() implies {
            let q = point(#[trigger] next[i]);
            &&& candidates.in_bounds(q.0, q.1)
            &&& candidates.set.contains(q)
            &&& open.contains(q) ==> connected(open, point(start), q)
        } by {
            let q = point(next[i]);
            if i < rest.len() {
                assert(next[i] == stack[i]);
            } else {
                let k = i - rest.len();
                assert(next[i] == pushed[k]);
                assert(holds(around, q));
                let j = choose|j: int| 0 <= j < around.len() && point(#[trigger] around[j]) == q;
                assert(adjacent(p, point(around[j])));
                if open.contains(q) {
                    lemma_connected_step(open, point(start), p, q);
                }
            }
        }
    }
    assert(frontier_covers(candidates.set, seen_next, visited_next, next)) by {
        assert forall|a: (int, int), b: (int, int)|
            visited_next.contains(a) && candidates.set.contains(b) && adjacent(
                a,
                b,
            ) implies seen_next.contains(b) || holds(next, b) by {
            if a == p {
                assert(candidates.in_bounds(b.0, b.1));
                assert(holds(around, b));
                let j = choose|j: int| 0 <= j < around.len() && point(#[trigger] around[j]) == b;
                assert(holds(pushed, point(around[j])));
            } else {
                assert(seen.contains(b) || holds(stack, b));
            }
        }
    }
    if visited == Set::<(int, int)>::empty() {
        assert(stack[0] == start);
    }
    if !visited_next.contains(point(start)) {
        assert(holds(stack, point(start)));
    }
    assert(visited_next != Set::<(int, int)>::empty()) by {
        assert(visited_next.contains(p));
    }
}

/// Once the frontier is empty, the fill has visited the whole region of its
/// starting pixel.
proof fn lemma_fill_end(
    candidates: MaskView,
    before: Set<(int, int)>,
    start: (usize, usize),
    seen: Set<(int, int)>,
    visited: Set<(int, int)>,
)
    requires
        fill_invariant(candidates, before, start, seen, visited, Seq::empty()),
    ensures
        visited == component(candidates.set.difference(before), point(start)),
        seen == before.union(visited),
{
    reveal(fill_invariant);
    let open = candidates.set.difference(before);
    assert(!holds(Seq::<(usize, usize)>::empty(), point(start)));
    assert(closed_in(open, visited)) by {
        assert forall|a: (int, int), b: (int, int)|
            visited.contains(a) && open.contains(b) && adjacent(a, b) implies visited.contains(
            b,
        ) by {
            assert(seen.contains(b) || holds(Seq::<(usize, usize)>::empty(), b));
        }
    }
    assert forall|b: (int, int)| component(open, point(start)).contains(b) implies visited.contains(
        b,
    ) by {
        lemma_closed_holds_component(open, visited, point(start), b);
    }
    assert(visited =~= component(open, point(start)));
}

/// What a fill keeps true of its measurements: the count and the coordinate
/// sums are those of `visited`, and the box is the tight box of `visited`, or
/// the starting pixel alone while nothing has been visited.
#[verifier::opaque]
pub open spec fn tally(
    visited: Set<(int, int)>,
    w: int,
    h: int,
    start: (int, int),
    blob: Blob,
    x_sum: int,
    y_sum: int,
) -> bool {
    &&& blob.pixels_filled == pixel_count(visited, w, h)
    &&& x_sum == grid_sum(visited, Weight::Column, w, h)
    &&& y_sum == grid_sum(visited, Weight::Row, w, h)
    &&& 0 <= x_sum <= blob.pixels_filled * w
    &&& 0 <= y_sum <= blob.pixels_filled * h
    &&& forall|p: (int, int)| #[trigger]
        visited.contains(p) ==> blob.left <= p.0 <= blob.right && blob.top <= p.1 <= blob.bottom
    &&& blob.pixels_filled == 0 ==> blob.left == start.0 && blob.right == start.0 && blob.top
        == start.1 && blob.bottom == start.1
    &&& blob.pixels_filled > 0 ==> {
        &&& exists|y: int| #[trigger] visited.contains((blob.left as int, y))
        &&& exists|y: int| #[trigger] visited.contains((blob.right as int, y))
        &&& exists|x: int| #[trigger] visited.contains((x, blob.top as int))
        &&& exists|x: int| #[trigger] visited.contains((x, blob.bottom as int))
    }
}

proof fn lemma_tally_begin(w: int, h: int, start: (usize, usize))
    ensures
        tally(
            Set::empty(),
            w,
            h,
            point(start),
            Blob {
                left: start.0,
                right: start.0,
                top: start.1,
                bottom: start.1,
                pixels_filled: 0,
                mean_x: 0,
                mean_y: 0,
            },
            0,
            0,
        ),
{
    reveal(tally);
    lemma_count_empty(Weight::Unit, w, h);
    lemma_count_empty(Weight::Column, w, h);
    lemma_count_empty(Weight::Row, w, h);
    assert(0 * w == 0 && 0 * h == 0) by (nonlinear_arith);
}

/// The measurements after one more pixel.
pub open spec fn tally_with(blob: Blob, start: (int, int), p: (usize, usize)) -> Blob {
    Blob {
        left: if p.0 < blob.left {
            p.0
        } else {
            blob.left
        },
        right: if p.0 > blob.right {
            p.0
        } else {
            blob.right
        },
        top: if p.1 < blob.top {
            p.1
        } else {
            blob.top
        },
        bottom: if p.1 > blob.bottom {
            p.1
        } else {
            blob.bottom
        },
        pixels_filled: (blob.pixels_filled + 1) as usize,
        mean_x: blob.mean_x,
        mean_y: blob.mean_y,
    }
}

proof fn lemma_tally_visit(
    visited: Set<(int, int)>,
    w: int,
    h: int,
    start: (int, int),
    blob: Blob,
    x_sum: int,
    y_sum: int,
    p: (usize, usize),
)
    requires
        tally(visited, w, h, start, blob, x_sum, y_sum),
        !visited.contains(point(p)),
        0 <= p.0 < w <= usize::MAX,
        0 <= p.1 < h <= usize::MAX,
        w * h <= usize::MAX,
        forall|q: (int, int)| #[trigger] visited.contains(q) ==> 0 <= q.0 < w && 0 <= q.1 < h,
        visited == Set::<(int, int)>::empty() ==> point(p) == start,
    ensures
        blob.pixels_filled + 1 <= usize::MAX,
        x_sum + p.0 <= u128::MAX,
        y_sum + p.1 <= u128::MAX,
        tally(
            visited.insert(point(p)),
            w,
            h,
            start,
            tally_with(blob, start, p),
            x_sum + p.0,
            y_sum + p.1,
        ),
{
    reveal(tally);
    let q = point(p);
    let more = visited.insert(q);
    let next = tally_with(blob, start, p);
    lemma_grid_sum_insert(visited, Weight::Unit, w, h, q);
    lemma_grid_sum_insert(visited, Weight::Column, w, h, q);
    lemma_grid_sum_insert(visited, Weight::Row, w, h, q);
    lemma_count_within_grid(more, w, h);
    lemma_sums_fit(blob.pixels_filled as int, w, h);
    if blob.pixels_filled == 0 {
        assert(visited =~= Set::<(int, int)>::empty()) by {
            assert forall|r: (int, int)| !visited.contains(r) by {
                if visited.contains(r) {
                    lemma_grid_sum_bounds(visited, Weight::Unit, w, h, 1, 1);
                    lemma_count_positive(visited, w, h, r);
                }
            }
        }
        assert(more.contains((next.left as int, q.1)));
        assert(more.contains((next.right as int, q.1)));
        assert(more.contains((q.0, next.top as int)));
        assert(more.contains((q.0, next.bottom as int)));
    } else {
        let yl = choose|y: int| #[trigger] visited.contains((blob.left as int, y));
        let yr = choose|y: int| #[trigger] visited.contains((blob.right as int, y));
        let xt = choose|x: int| #[trigger] visited.contains((x, blob.top as int));
        let xb = choose|x: int| #[trigger] visited.contains((x, blob.bottom as int));
        assert(more.contains((next.left as int, if p.0 < blob.left {
            q.1
        } else {
            yl
        })));
        assert(more.contains((next.right as int, if p.0 > blob.right {
            q.1
        } else {
            yr
        })));
        assert(more.contains((if p.1 < blob.top {
            q.0
        } else {
            xt
        }, next.top as int)));
        assert(more.contains((if p.1 > blob.bottom {
            q.0
        } else {
            xb
        }, next.bottom as int)));
    }
}

/// A set with a pixel on the grid counts at least one pixel.
proof fn lemma_count_positive(s: Set<(int, int)>, w: int, h: int, p: (int, int))
    requires
        s.contains(p),
        0 <= p.0 < w,
        0 <= p.1 < h,
    ensures
        pixel_count(s, w, h) > 0,
{
    let rest = s.remove(p);
    assert(rest.insert(p) =~= s);
    lemma_grid_sum_insert(rest, Weight::Unit, w, h, p);
    lemma_grid_sum_bounds(rest, Weight::Unit, w, h, 1, 1);
}

proof fn lemma_tally_end(
    visited: Set<(int, int)>,
    w: int,
    h: int,
    start: (int, int),
    blob: Blob,
    x_sum: int,
    y_sum: int,
)
    requires
        tally(visited, w, h, start, blob, x_sum, y_sum),
        visited.contains(start),
        forall|q: (int, int)| #[trigger] visited.contains(q) ==> 0 <= q.0 < w && 0 <= q.1 < h,
    ensures
        blob.pixels_filled > 0,
        blob.left <= x_sum / (blob.pixels_filled as int) <= blob.right,
        blob.top <= y_sum / (blob.pixels_filled as int) <= blob.bottom,
        (Blob {
            mean_x: (x_sum / (blob.pixels_filled as int)) as usize,
            mean_y: (y_sum / (blob.pixels_filled as int)) as usize,
            ..blob
        }).describes(visited, w, h),
{
    reveal(tally);
    lemma_count_positive(visited, w, h, start);
    lemma_grid_sum_bounds(visited, Weight::Column, w, h, blob.left as int, blob.right as int);
    lemma_grid_sum_bounds(visited, Weight::Row, w, h, blob.top as int, blob.bottom as int);
    lemma_mean_in_range(x_sum, blob.pixels_filled as int, blob.left as int, blob.right as int);
    lemma_mean_in_range(y_sum, blob.pixels_filled as int, blob.top as int, blob.bottom as int);
    let done = Blob {
        mean_x: (x_sum / (blob.pixels_filled as int)) as usize,
        mean_y: (y_sum / (blob.pixels_filled as int)) as usize,
        ..blob
    };
    let yl = choose|y: int| #[trigger] visited.contains((blob.left as int, y));
    let yr = choose|y: int| #[trigger] visited.contains((blob.right as int, y));
    let xt = choose|x: int| #[trigger] visited.contains((x, blob.top as int));
    let xb = choose|x: int| #[trigger] visited.contains((x, blob.bottom as int));
    assert(visited.contains((done.left as int, yl)));
    assert(visited.contains((done.right as int, yr)));
    assert(visited.contains((xt, done.top as int)));
    assert(visited.contains((xb, done.bottom as int)));
}

/// Marking a new pixel of the grid raises the number of seen pixels by one,
/// and there is room for it.
proof fn lemma_seen_grows(seen: Set<(int, int)>, p: (int, int), w: int, h: int)
    requires
        !seen.contains(p),
        0 <= p.0 < w,
        0 <= p.1 < h,
        forall|q: (int, int)| #[trigger] seen.contains(q) ==> 0 <= q.0 < w && 0 <= q.1 < h,
    ensures
        pixel_count(seen.insert(p), w, h) == pixel_count(seen, w, h) + 1,
        pixel_count(seen.insert(p), w, h) <= w * h,
{
    lemma_grid_sum_insert(seen, Weight::Unit, w, h, p);
    lemma_count_within_grid(seen.insert(p), w, h);
}

/// Measures the connected region of `(x, y)` among the candidates that have
/// not been seen, and marks it seen.
///
/// The region is what a walk from `(x, y)` reaches through pixels that are
/// candidates and were not seen when the fill began, moving up, down, left
/// and right.
pub fn flood_fill(
    x: usize,
    y: usize,
    target_candidates: &BooleanMatrix,
    has_seen: &mut BooleanMatrix,
) -> (blob: Blob)
    requires
        target_candidates.well_formed(),
        old(has_seen).well_formed(),
        old(has_seen)@.width == target_candidates@.width,
        old(has_seen)@.height == target_candidates@.height,
        target_candidates@.set.contains((x as int, y as int)),
        !old(has_seen)@.set.contains((x as int, y as int)),
    ensures
        final(has_seen).well_formed(),
        final(has_seen)@.width == old(has_seen)@.width,
        final(has_seen)@.height == old(has_seen)@.height,
        final(has_seen)@.set == old(has_seen)@.set.union(
            component(
                target_candidates@.set.difference(old(has_seen)@.set),
                (x as int, y as int),
            ),
        ),
        blob.describes(
            component(
                target_candidates@.set.difference(old(has_seen)@.set),
                (x as int, y as int),
            ),
            target_candidates@.width as int,
            target_candidates@.height as int,
        ),
        blob.valid(),
        blob.within(target_candidates@.width as int, target_candidates@.height as int),
{
    let (image_base, image_height) = target_candidates.base_height();
    let ghost w = image_base as int;
    let ghost h = image_height as int;
    let ghost area = w * h;
    let ghost start = (x as int, y as int);
    let ghost before = has_seen@.set;
    let ghost mut visited: Set<(int, int)> = Set::empty();
    proof {
        target_candidates.lemma_well_formed();
        has_seen.lemma_well_formed();
        lemma_count_within_grid(before, w, h);
        lemma_fill_begin(target_candidates@, before, (x, y));
        lemma_tally_begin(w, h, (x, y));
    }
    let mut top = y;
    let mut bottom = y;
    let mut left = x;
    let mut right = x;
    let mut x_sum: u128 = 0;
    let mut y_sum: u128 = 0;
    let mut pixels_filled: usize = 0;
    let mut stack: Vec<(usize, usize)> = Vec::new();
    stack.push((x, y));
    proof {
        assert(stack@ =~= seq![(x, y)]);
    }
    while stack.len() > 0
        invariant
            target_candidates.well_formed(),
            has_seen.well_formed(),
            w == image_base == target_candidates@.width == has_seen@.width,
            h == image_height == target_candidates@.height == has_seen@.height,
            area <= usize::MAX,
            area == w * h,
            start == (x as int, y as int),
            fill_invariant(target_candidates@, before, (x, y), has_seen@.set, visited, stack@),
            tally(
                visited,
                w,
                h,
                start,
                Blob { left, right, top, bottom, pixels_filled, mean_x: 0, mean_y: 0 },
                x_sum as int,
                y_sum as int,
            ),
            0 <= pixel_count(has_seen@.set, w, h) <= area,
        decreases area - pixel_count(has_seen@.set, w, h), stack.len(),
    {
        let ghost stack_before = stack@;
        let ghost seen_before = has_seen@.set;
        proof {
            lemma_fill_top(target_candidates@, before, (x, y), seen_before, visited, stack_before);
            has_seen.lemma_well_formed();
        }
        let popped = stack.pop().unwrap();
        let px = popped.0;
        let py = popped.1;
        proof {
            assert(stack@ =~= stack_before.drop_last());
            assert(popped == stack_before.last());
        }
        if has_seen.is_set(px, py) {
            proof {
                lemma_fill_skip(
                    target_candidates@,
                    before,
                    (x, y),
                    seen_before,
                    visited,
                    stack_before,
                );
            }
        } else {
            has_seen.set(px, py);
            let around = neighbors(px, py, image_base, image_height);
            proof {
                lemma_neighbors_of(px, py, image_base, image_height);
            }
            push_candidates(&around, target_candidates, &mut stack);
            proof {
                lemma_fill_visit(
                    target_candidates@,
                    before,
                    (x, y),
                    seen_before,
                    visited,
                    stack_before,
                    image_base,
                    image_height,
                );
                lemma_tally_visit(
                    visited,
                    w,
                    h,
                    start,
                    Blob { left, right, top, bottom, pixels_filled, mean_x: 0, mean_y: 0 },
                    x_sum as int,
                    y_sum as int,
                    popped,
                );
                lemma_seen_grows(seen_before, point(popped), w, h);
                visited = visited.insert(point(popped));
            }
            pixels_filled += 1;
            x_sum += px as u128;
            y_sum += py as u128;
            if px < left {
                left = px;
            }
            if py < top {
                top = py;
            }
            if px > right {
                right = px;
            }
            if py > bottom {
                bottom = py;
            }
        }
    }
    proof {
        assert(stack@ =~= Seq::empty());
        lemma_fill_end(target_candidates@, before, (x, y), has_seen@.set, visited);
        let open = target_candidates@.set.difference(before);
        lemma_connected_refl(open, start);
        assert forall|q: (int, int)| #[trigger] visited.contains(q) implies 0 <= q.0 < w && 0
            <= q.1 < h by {
            lemma_connected_members(open, start, q);
        }
        lemma_tally_end(
            visited,
            w,
            h,
            start,
            Blob { left, right, top, bottom, pixels_filled, mean_x: 0, mean_y: 0 },
            x_sum as int,
            y_sum as int,
        );
    }
    let mean_x = (x_sum / (pixels_filled as u128)) as usize;
    let mean_y = (y_sum / (pixels_filled as u128)) as usize;
    let blob = Blob { left, right, top, bottom, pixels_filled, mean_x, mean_y };
    proof {
        lemma_description_valid(blob, visited, w, h);
    }
    blob
}

/// The coordinate sums of a region fit 128 bits with room for one more pixel.
proof fn lemma_sums_fit(count: int, w: int, h: int)
    requires
        0 <= count <= usize::MAX,
        0 <= w <= usize::MAX,
        0 <= h <= usize::MAX,
    ensures
        (count + 1) * w == count * w + w,
        (count + 1) * h == count * h + h,
        count * w + w <= u128::MAX,
        count * h + h <= u128::MAX,
{
    assert((count + 1) * w == count * w + w) by (nonlinear_arith);
    assert((count + 1) * h == count * h + h) by (nonlinear_arith);
    assert(count * w <= usize::MAX * usize::MAX) by (nonlinear_arith)
        requires
            0 <= count <= usize::MAX,
            0 <= w <= usize::MAX,
    ;
    assert(count * h <= usize::MAX * usize::MAX) by (nonlinear_arith)
        requires
            0 <= count <= usize::MAX,
            0 <= h <= usize::MAX,
    ;
    assert(usize::MAX * usize::MAX + usize::MAX <= u128::MAX) by (nonlinear_arith)
        requires
            usize::MAX <= 0xffff_ffff_ffff_ffff,
    ;
}

} // verus!
