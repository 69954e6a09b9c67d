//! Sets of pixels: four-connectivity, and counts and coordinate sums over a
//! grid.  Everything here is ghost code: definitions and their lemmas.

use vstd::prelude::*;

verus! {

/// Whether two pixels share an edge.
pub open spec fn adjacent(a: (int, int), b: (int, int)) -> bool {
    ||| (a.1 == b.1 && (a.0 == b.0 + 1 || b.0 == a.0 + 1))
    ||| (a.0 == b.0 && (a.1 == b.1 + 1 || b.1 == a.1 + 1))
}

/// Whether `path` is a walk through `open` in which each pixel shares an edge
/// with the next.
pub open spec fn is_path(open: Set<(int, int)>, path: Seq<(int, int)>) -> bool {
    &&& path.len() > 0
    &&& forall|i: int| 0 <= i < path.len() ==> open.contains(#[trigger] path[i])
    &&& forall|i: int| 0 <= i < path.len() - 1 ==> adjacent(#[trigger] path[i], path[i + 1])
}

/// Whether a walk through `open` leads from `a` to `b`.
pub open spec fn connected(open: Set<(int, int)>, a: (int, int), b: (int, int)) -> bool {
    exists|path: Seq<(int, int)>|
        is_path(open, path) && path[0] == a && #[trigger] path[path.len() - 1] == b
}

/// The pixels of `open` that a walk from `a` reaches: the four-connected
/// region of `a`.
pub open spec fn component(open: Set<(int, int)>, a: (int, int)) -> Set<(int, int)> {
    Set::new(|b: (int, int)| connected(open, a, b))
}

/// Whether no step from a pixel of `s` to a pixel of `open` leaves `s`.
pub open spec fn closed_in(open: Set<(int, int)>, s: Set<(int, int)>) -> bool {
    forall|a: (int, int), b: (int, int)|
        s.contains(a) && open.contains(b) && adjacent(a, b) ==> s.contains(b)
}

/// Whether `a` comes before `b` when a grid is read row by row.
pub open spec fn precedes(a: (int, int), b: (int, int)) -> bool {
    a.1 < b.1 || (a.1 == b.1 && a.0 < b.0)
}

pub proof fn lemma_connected_members(open: Set<(int, int)>, a: (int, int), b: (int, int))
    requires
        connected(open, a, b),
    ensures
        open.contains(a),
        open.contains(b),
{
    let path = choose|path: Seq<(int, int)>|
        is_path(open, path) && path[0] == a && #[trigger] path[path.len() - 1] == b;
    assert(open.contains(path[0]));
    assert(open.contains(path[path.len() - 1]));
}

pub proof fn lemma_connected_refl(open: Set<(int, int)>, a: (int, int))
    requires
        open.contains(a),
    ensures
        connected(open, a, a),
{
    let path = seq![a];
    assert(is_path(open, path));
    assert(path[0] == a && path[path.len() - 1] == a);
}

pub proof fn lemma_connected_step(
    open: Set<(int, int)>,
    a: (int, int),
    b: (int, int),
    c: (int, int),
)
    requires
        connected(open, a, b),
        open.contains(c),
        adjacent(b, c),
    ensures
        connected(open, a, c),
{
    let path = choose|path: Seq<(int, int)>|
        is_path(open, path) && path[0] == a && #[trigger] path[path.len() - 1] == b;
    let longer = path.push(c);
    assert forall|i: int| 0 <= i < longer.len() - 1 implies adjacent(
        #[trigger] longer[i],
        longer[i + 1],
    ) by {
        if i < path.len() - 1 {
            assert(adjacent(path[i], path[i + 1]));
        }
    }
    assert forall|i: int| 0 <= i < longer.len() implies open.contains(#[trigger] longer[i]) by {
        if i < path.len() {
            assert(open.contains(path[i]));
        }
    }
    assert(is_path(open, longer));
    assert(longer[0] == a && longer[longer.len() - 1] == c);
}

pub proof fn lemma_connected_sym(open: Set<(int, int)>, a: (int, int), b: (int, int))
    requires
        connected(open, a, b),
    ensures
        connected(open, b, a),
{
    let path = choose|path: Seq<(int, int)>|
        is_path(open, path) && path[0] == a && #[trigger] path[path.len() - 1] == b;
    let n = path.len() as int;
    let back = Seq::new(path.len(), |i: int| path[n - 1 - i]);
    assert forall|i: int| 0 <= i < back.len() - 1 implies adjacent(
        #[trigger] back[i],
        back[i + 1],
    ) by {
        assert(adjacent(path[n - 2 - i], path[n - 2 - i + 1]));
    }
    assert forall|i: int| 0 <= i < back.len() implies open.contains(#[trigger] back[i]) by {
        assert(open.contains(path[n - 1 - i]));
    }
    assert(is_path(open, back));
    assert(back[0] == b && back[back.len() - 1] == a);
}

pub proof fn lemma_connected_trans(
    open: Set<(int, int)>,
    a: (int, int),
    b: (int, int),
    c: (int, int),
)
    requires
        connected(open, a, b),
        connected(open, b, c),
    ensures
        connected(open, a, c),
{
    let first = choose|path: Seq<(int, int)>|
        is_path(open, path) && path[0] == a && #[trigger] path[path.len() - 1] == b;
    let second = choose|path: Seq<(int, int)>|
        is_path(open, path) && path[0] == b && #[trigger] path[path.len() - 1] == c;
    lemma_walk_extends(open, a, first, second, second.len() as int);
}

/// A walk from `a` followed by the first `n` pixels of a walk that starts
/// where the first one ends.
proof fn lemma_walk_extends(
    open: Set<(int, int)>,
    a: (int, int),
    first: Seq<(int, int)>,
    second: Seq<(int, int)>,
    n: int,
)
    requires
        is_path(open, first),
        is_path(open, second),
        first[0] == a,
        first[first.len() - 1] == second[0],
        1 <= n <= second.len(),
    ensures
        connected(open, a, second[n - 1]),
    decreases n,
{
    if n == 1 {
        assert(first[first.len() - 1] == second[0]);
    } else {
        lemma_walk_extends(open, a, first, second, n - 1);
        assert(adjacent(second[n - 2], second[n - 2 + 1]));
        assert(open.contains(second[n - 1]));
        lemma_connected_step(open, a, second[n - 2], second[n - 1]);
    }
}

/// A walk that starts inside a closed set stays inside it.
pub proof fn lemma_closed_holds_walk(
    open: Set<(int, int)>,
    s: Set<(int, int)>,
    path: Seq<(int, int)>,
    n: int,
)
    requires
        closed_in(open, s),
        is_path(open, path),
        s.contains(path[0]),
        0 <= n < path.len(),
    ensures
        s.contains(path[n]),
    decreases n,
{
    if n > 0 {
        lemma_closed_holds_walk(open, s, path, n - 1);
        assert(adjacent(path[n - 1], path[n - 1 + 1]));
        assert(open.contains(path[n]));
    }
}

/// A closed set holds the whole region of each of its pixels.
pub proof fn lemma_closed_holds_component(
    open: Set<(int, int)>,
    s: Set<(int, int)>,
    a: (int, int),
    b: (int, int),
)
    requires
        closed_in(open, s),
        s.contains(a),
        connected(open, a, b),
    ensures
        s.contains(b),
{
    let path = choose|path: Seq<(int, int)>|
        is_path(open, path) && path[0] == a && #[trigger] path[path.len() - 1] == b;
    lemma_closed_holds_walk(open, s, path, path.len() - 1);
}

/// A walk through a smaller set is a walk through a larger one.
pub proof fn lemma_connected_monotone(
    smaller: Set<(int, int)>,
    larger: Set<(int, int)>,
    a: (int, int),
    b: (int, int),
)
    requires
        smaller.subset_of(larger),
        connected(smaller, a, b),
    ensures
        connected(larger, a, b),
{
    let path = choose|path: Seq<(int, int)>|
        is_path(smaller, path) && path[0] == a && #[trigger] path[path.len() - 1] == b;
    assert forall|i: int| 0 <= i < path.len() implies larger.contains(#[trigger] path[i]) by {
        assert(smaller.contains(path[i]));
    }
    assert(is_path(larger, path));
}

/// Taking a closed set out of `open` leaves the regions outside it as they
/// were.
pub proof fn lemma_component_avoids_closed(
    open: Set<(int, int)>,
    s: Set<(int, int)>,
    a: (int, int),
)
    requires
        closed_in(open, s),
        !s.contains(a),
    ensures
        component(open.difference(s), a) == component(open, a),
{
    let rest = open.difference(s);
    assert forall|b: (int, int)| connected(open, a, b) implies connected(rest, a, b) by {
        let path = choose|path: Seq<(int, int)>|
            is_path(open, path) && path[0] == a && #[trigger] path[path.len() - 1] == b;
        assert forall|i: int| 0 <= i < path.len() implies rest.contains(#[trigger] path[i]) by {
            assert(open.contains(path[i]));
            if s.contains(path[i]) {
                let head = path.subrange(0, i + 1);
                assert forall|k: int| 0 <= k < head.len() - 1 implies adjacent(
                    #[trigger] head[k],
                    head[k + 1],
                ) by {
                    assert(adjacent(path[k], path[k + 1]));
                }
                assert forall|k: int| 0 <= k < head.len() implies open.contains(
                    #[trigger] head[k],
                ) by {
                    assert(open.contains(path[k]));
                }
                assert(is_path(open, head));
                assert(head[0] == a && head[head.len() - 1] == path[i]);
                lemma_connected_sym(open, a, path[i]);
                lemma_closed_holds_component(open, s, path[i], a);
            }
        }
        assert(is_path(rest, path));
    }
    assert forall|b: (int, int)| connected(rest, a, b) implies connected(open, a, b) by {
        lemma_connected_monotone(rest, open, a, b);
    }
    assert(component(rest, a) =~= component(open, a));
}

/// The union of a closed set with a whole region is closed.
pub proof fn lemma_closed_with_component(
    open: Set<(int, int)>,
    s: Set<(int, int)>,
    a: (int, int),
)
    requires
        closed_in(open, s),
    ensures
        closed_in(open, s.union(component(open, a))),
{
    let both = s.union(component(open, a));
    assert forall|p: (int, int), q: (int, int)|
        both.contains(p) && open.contains(q) && adjacent(p, q) implies both.contains(q) by {
        if !s.contains(p) {
            lemma_connected_step(open, a, p, q);
        }
    }
}

/// What a pixel contributes to a sum over a set of pixels.
pub enum Weight {
    /// One for each pixel: the sum counts the pixels.
    Unit,
    /// The pixel's column.
    Column,
    /// The pixel's row.
    Row,
}

impl Weight {
    pub open spec fn of(self, x: int, y: int) -> int {
        match self {
            Weight::Unit => 1,
            Weight::Column => x,
            Weight::Row => y,
        }
    }
}

/// The sum of the weights of the pixels of `s` in row `y`, columns below
/// `x_end`.
pub open spec fn row_sum(s: Set<(int, int)>, weight: Weight, y: int, x_end: int) -> int
    decreases x_end,
{
    if x_end <= 0 {
        0
    } else {
        row_sum(s, weight, y, x_end - 1) + if s.contains((x_end - 1, y)) {
            weight.of(x_end - 1, y)
        } else {
            0
        }
    }
}

/// The sum of the weights of the pixels of `s` in the rows below `y_end` of a
/// grid `width` wide.
pub open spec fn grid_sum(s: Set<(int, int)>, weight: Weight, width: int, y_end: int) -> int
    decreases y_end,
{
    if y_end <= 0 {
        0
    } else {
        grid_sum(s, weight, width, y_end - 1) + row_sum(s, weight, y_end - 1, width)
    }
}

/// The number of pixels of `s` on a grid of the given size.
pub open spec fn pixel_count(s: Set<(int, int)>, width: int, height: int) -> int {
    grid_sum(s, Weight::Unit, width, height)
}

/// The pixels of the rectangle from `(left, top)` to `(right, bottom)`, edges
/// included.
pub open spec fn rectangle(left: int, right: int, top: int, bottom: int) -> Set<(int, int)> {
    Set::new(|p: (int, int)| left <= p.0 <= right && top <= p.1 <= bottom)
}

pub proof fn lemma_row_sum_insert(
    s: Set<(int, int)>,
    weight: Weight,
    y: int,
    x_end: int,
    p: (int, int),
)
    requires
        !s.contains(p),
    ensures
        row_sum(s.insert(p), weight, y, x_end) == row_sum(s, weight, y, x_end) + if p.1 == y && 0
            <= p.0 < x_end {
            weight.of(p.0, p.1)
        } else {
            0
        },
    decreases x_end,
{
    if x_end > 0 {
        lemma_row_sum_insert(s, weight, y, x_end - 1, p);
    }
}

/// Adding a pixel of the grid to a set raises each sum by that pixel's
/// weight.
pub proof fn lemma_grid_sum_insert(
    s: Set<(int, int)>,
    weight: Weight,
    width: int,
    y_end: int,
    p: (int, int),
)
    requires
        !s.contains(p),
    ensures
        grid_sum(s.insert(p), weight, width, y_end) == grid_sum(s, weight, width, y_end) + if 0
            <= p.0 < width && 0 <= p.1 < y_end {
            weight.of(p.0, p.1)
        } else {
            0
        },
    decreases y_end,
{
    if y_end > 0 {
        lemma_grid_sum_insert(s, weight, width, y_end - 1, p);
        lemma_row_sum_insert(s, weight, y_end - 1, width, p);
    }
}

proof fn lemma_row_sum_union(
    s: Set<(int, int)>,
    t: Set<(int, int)>,
    weight: Weight,
    y: int,
    x_end: int,
)
    requires
        s.disjoint(t),
    ensures
        row_sum(s.union(t), weight, y, x_end) == row_sum(s, weight, y, x_end) + row_sum(
            t,
            weight,
            y,
            x_end,
        ),
    decreases x_end,
{
    if x_end > 0 {
        lemma_row_sum_union(s, t, weight, y, x_end - 1);
        assert(!(s.contains((x_end - 1, y)) && t.contains((x_end - 1, y))));
    }
}

/// A sum over two sets that share no pixel is the sum of their sums.
pub proof fn lemma_grid_sum_union(
    s: Set<(int, int)>,
    t: Set<(int, int)>,
    weight: Weight,
    width: int,
    y_end: int,
)
    requires
        s.disjoint(t),
    ensures
        grid_sum(s.union(t), weight, width, y_end) == grid_sum(s, weight, width, y_end) + grid_sum(
            t,
            weight,
            width,
            y_end,
        ),
    decreases y_end,
{
    if y_end > 0 {
        lemma_grid_sum_union(s, t, weight, width, y_end - 1);
        lemma_row_sum_union(s, t, weight, y_end - 1, width);
    }
}

proof fn lemma_row_sum_bounds(
    s: Set<(int, int)>,
    weight: Weight,
    y: int,
    x_end: int,
    low: int,
    high: int,
)
    requires
        forall|p: (int, int)| #[trigger] s.contains(p) ==> low <= weight.of(p.0, p.1) <= high,
    ensures
        0 <= row_sum(s, Weight::Unit, y, x_end),
        low * row_sum(s, Weight::Unit, y, x_end) <= row_sum(s, weight, y, x_end),
        row_sum(s, weight, y, x_end) <= high * row_sum(s, Weight::Unit, y, x_end),
    decreases x_end,
{
    if x_end > 0 {
        lemma_row_sum_bounds(s, weight, y, x_end - 1, low, high);
        let c = row_sum(s, Weight::Unit, y, x_end - 1);
        if s.contains((x_end - 1, y)) {
            assert(low <= weight.of(x_end - 1, y) <= high);
            assert(low * (c + 1) == low * c + low) by (nonlinear_arith);
            assert(high * (c + 1) == high * c + high) by (nonlinear_arith);
        }
    } else {
        assert(low * 0 == 0 && high * 0 == 0) by (nonlinear_arith);
    }
}

/// Where every weight lies between `low` and `high`, the sum lies between
/// `low` and `high` times the number of pixels.
pub proof fn lemma_grid_sum_bounds(
    s: Set<(int, int)>,
    weight: Weight,
    width: int,
    y_end: int,
    low: int,
    high: int,
)
    requires
        forall|p: (int, int)| #[trigger] s.contains(p) ==> low <= weight.of(p.0, p.1) <= high,
    ensures
        0 <= pixel_count(s, width, y_end),
        low * pixel_count(s, width, y_end) <= grid_sum(s, weight, width, y_end),
        grid_sum(s, weight, width, y_end) <= high * pixel_count(s, width, y_end),
    decreases y_end,
{
    if y_end > 0 {
        lemma_grid_sum_bounds(s, weight, width, y_end - 1, low, high);
        lemma_row_sum_bounds(s, weight, y_end - 1, width, low, high);
        let c = pixel_count(s, width, y_end - 1);
        let r = row_sum(s, Weight::Unit, y_end - 1, width);
        assert(low * (c + r) == low * c + low * r) by (nonlinear_arith);
        assert(high * (c + r) == high * c + high * r) by (nonlinear_arith);
    } else {
        assert(low * 0 == 0 && high * 0 == 0) by (nonlinear_arith);
    }
}

proof fn lemma_row_count_subset(s: Set<(int, int)>, t: Set<(int, int)>, y: int, x_end: int)
    requires
        s.subset_of(t),
    ensures
        0 <= row_sum(s, Weight::Unit, y, x_end) <= row_sum(t, Weight::Unit, y, x_end),
    decreases x_end,
{
    if x_end > 0 {
        lemma_row_count_subset(s, t, y, x_end - 1);
    }
}

/// A set has no more pixels than a set that holds it.
pub proof fn lemma_count_subset(s: Set<(int, int)>, t: Set<(int, int)>, width: int, y_end: int)
    requires
        s.subset_of(t),
    ensures
        0 <= pixel_count(s, width, y_end) <= pixel_count(t, width, y_end),
    decreases y_end,
{
    if y_end > 0 {
        lemma_count_subset(s, t, width, y_end - 1);
        lemma_row_count_subset(s, t, y_end - 1, width);
    }
}

proof fn lemma_row_count_rectangle(
    left: int,
    right: int,
    top: int,
    bottom: int,
    y: int,
    x_end: int,
)
    requires
        0 <= left <= right,
        0 <= x_end,
    ensures
        row_sum(rectangle(left, right, top, bottom), Weight::Unit, y, x_end) == if top <= y
            <= bottom {
            if x_end <= left {
                0
            } else if x_end <= right + 1 {
                x_end - left
            } else {
                right - left + 1
            }
        } else {
            0
        },
    decreases x_end,
{
    if x_end > 0 {
        lemma_row_count_rectangle(left, right, top, bottom, y, x_end - 1);
    }
}

/// A rectangle on the grid has as many pixels as its width times its height.
pub proof fn lemma_count_rectangle(
    left: int,
    right: int,
    top: int,
    bottom: int,
    width: int,
    y_end: int,
)
    requires
        0 <= left <= right < width,
        0 <= top <= bottom,
        0 <= y_end,
    ensures
        pixel_count(rectangle(left, right, top, bottom), width, y_end) == (right - left + 1) * (
        if y_end <= top {
            0
        } else if y_end <= bottom + 1 {
            y_end - top
        } else {
            bottom - top + 1
        }),
    decreases y_end,
{
    let w = right - left + 1;
    if y_end > 0 {
        lemma_count_rectangle(left, right, top, bottom, width, y_end - 1);
        lemma_row_count_rectangle(left, right, top, bottom, y_end - 1, width);
        if top <= y_end - 1 <= bottom {
            assert(w * (y_end - top) == w * (y_end - 1 - top) + w) by (nonlinear_arith);
        }
    }
    assert(w * 0 == 0) by (nonlinear_arith);
}

/// A set of pixels inside a rectangle on the grid has no more pixels than the
/// rectangle's area.
pub proof fn lemma_count_within_rectangle(
    s: Set<(int, int)>,
    left: int,
    right: int,
    top: int,
    bottom: int,
    width: int,
    height: int,
)
    requires
        0 <= left <= right < width,
        0 <= top <= bottom < height,
        forall|p: (int, int)|
            #[trigger] s.contains(p) ==> left <= p.0 <= right && top <= p.1 <= bottom,
    ensures
        0 <= pixel_count(s, width, height) <= (right - left + 1) * (bottom - top + 1),
{
    let r = rectangle(left, right, top, bottom);
    assert(s.subset_of(r)) by {
        assert forall|p: (int, int)| s.contains(p) implies r.contains(p) by {
            assert(top <= p.1 <= bottom);
        }
    }
    lemma_count_subset(s, r, width, height);
    lemma_count_rectangle(left, right, top, bottom, width, height);
}

/// A set of pixels on the grid has no more pixels than the grid.
pub proof fn lemma_count_within_grid(s: Set<(int, int)>, width: int, height: int)
    requires
        0 <= width,
        0 <= height,
        forall|p: (int, int)| #[trigger] s.contains(p) ==> 0 <= p.0 < width && 0 <= p.1 < height,
    ensures
        0 <= pixel_count(s, width, height) <= width * height,
{
    if width == 0 || height == 0 {
        assert(s =~= Set::<(int, int)>::empty()) by {
            assert forall|p: (int, int)| !s.contains(p) by {
                if s.contains(p) {
                    assert(0 <= p.1 < height);
                }
            }
        }
        lemma_count_subset(s, s, width, height);
        lemma_count_empty(Weight::Unit, width, height);
        assert(width * height == 0) by (nonlinear_arith)
            requires
                width == 0 || height == 0,
        ;
    } else {
        lemma_count_within_rectangle(s, 0, width - 1, 0, height - 1, width, height);
    }
}

proof fn lemma_row_sum_empty(weight: Weight, y: int, x_end: int)
    ensures
        row_sum(Set::<(int, int)>::empty(), weight, y, x_end) == 0,
    decreases x_end,
{
    if x_end > 0 {
        lemma_row_sum_empty(weight, y, x_end - 1);
    }
}

/// Every sum over the empty set is zero.
pub proof fn lemma_count_empty(weight: Weight, width: int, y_end: int)
    ensures
        grid_sum(Set::<(int, int)>::empty(), weight, width, y_end) == 0,
    decreases y_end,
{
    if y_end > 0 {
        lemma_count_empty(weight, width, y_end - 1);
        lemma_row_sum_empty(weight, y_end - 1, width);
    }
}

} // verus!
