//! The linear system whose solution straightens a picture.
//!
//! Four points of the picture are to come to lie on four points of the
//! sheet.  The map that does it is `(x, y) -> (X / W, Y / W)` with
//! `X = c0 x + c1 y + c2`, `Y = c3 x + c4 y + c5`, `W = c6 x + c7 y + 1`,
//! and its eight coefficients solve eight linear equations, two for each
//! pair of points.  The equations have whole numbers for coefficients and are
//! made here; solving them is left to the caller.

use vstd::prelude::*;

verus! {

/// The equation that the first coordinate of the pair `s`, `d` gives.
pub open spec fn x_row(s: (int, int), d: (int, int)) -> Seq<int> {
    seq![s.0, s.1, 1, 0, 0, 0, -s.0 * d.0, -s.1 * d.0]
}

/// The equation that the second coordinate of the pair `s`, `d` gives.
pub open spec fn y_row(s: (int, int), d: (int, int)) -> Seq<int> {
    seq![0, 0, 0, s.0, s.1, 1, -s.0 * d.1, -s.1 * d.1]
}

/// The left sides of the eight equations: those of the first coordinates of
/// the four pairs, then those of the second.
pub open spec fn system_rows(src: Seq<(int, int)>, dst: Seq<(int, int)>) -> Seq<Seq<int>> {
    Seq::new(
        8,
        |r: int|
            if r < 4 {
                x_row(src[r], dst[r])
            } else {
                y_row(src[r - 4], dst[r - 4])
            },
    )
}

/// The right sides of the eight equations.
pub open spec fn system_rhs(dst: Seq<(int, int)>) -> Seq<int> {
    Seq::new(
        8,
        |r: int|
            if r < 4 {
                dst[r].0
            } else {
                dst[r - 4].1
            },
    )
}

/// The points of the picture, as points of the plane.
pub open spec fn picture_points(src: Seq<(usize, usize)>) -> Seq<(int, int)> {
    Seq::new(src.len(), |i: int| (src[i].0 as int, src[i].1 as int))
}

/// The points of the sheet, as points of the plane.
pub open spec fn sheet_points(dst: Seq<(u128, u128)>) -> Seq<(int, int)> {
    Seq::new(dst.len(), |i: int| (dst[i].0 as int, dst[i].1 as int))
}

/// Whether `a` and `b` hold the eight equations for the pairs of `src` and
/// `dst`.
pub open spec fn holds_system(
    a: Seq<Vec<i128>>,
    b: Seq<i128>,
    src: Seq<(int, int)>,
    dst: Seq<(int, int)>,
) -> bool {
    &&& a.len() == 8
    &&& b.len() == 8
    &&& forall|r: int|
        0 <= r < 8 ==> {
            &&& (#[trigger] a[r])@.len() == 8
            &&& b[r] == system_rhs(dst)[r]
            &&& forall|k: int| 0 <= k < 8 ==> #[trigger] a[r]@[k] == system_rows(src, dst)[r][k]
        }
}

/// One equation of the system.
fn equation(s: (usize, usize), d: (u128, u128), second: bool) -> (row: Vec<i128>)
    requires
        d.0 <= i64::MAX,
        d.1 <= i64::MAX,
    ensures
        row@.len() == 8,
        forall|k: int|
            0 <= k < 8 ==> #[trigger] row@[k] == if second {
                y_row((s.0 as int, s.1 as int), (d.0 as int, d.1 as int))[k]
            } else {
                x_row((s.0 as int, s.1 as int), (d.0 as int, d.1 as int))[k]
            },
{
    let sx = s.0 as i128;
    let sy = s.1 as i128;
    let target = if second {
        d.1 as i128
    } else {
        d.0 as i128
    };
    proof {
        assert(0 <= sx * target <= 0xffff_ffff_ffff_ffff * 0x7fff_ffff_ffff_ffff)
            by (nonlinear_arith)
            requires
                0 <= sx <= 0xffff_ffff_ffff_ffff,
                0 <= target <= 0x7fff_ffff_ffff_ffff,
        ;
        assert(0 <= sy * target <= 0xffff_ffff_ffff_ffff * 0x7fff_ffff_ffff_ffff)
            by (nonlinear_arith)
            requires
                0 <= sy <= 0xffff_ffff_ffff_ffff,
                0 <= target <= 0x7fff_ffff_ffff_ffff,
        ;
        assert((-sx) * target == -(sx * target)) by (nonlinear_arith);
        assert((-sy) * target == -(sy * target)) by (nonlinear_arith);
    }
    let mut row: Vec<i128> = Vec::with_capacity(8);
    if second {
        row.push(0);
        row.push(0);
        row.push(0);
    }
    row.push(sx);
    row.push(sy);
    row.push(1);
    if !second {
        row.push(0);
        row.push(0);
        row.push(0);
    }
    row.push(-(sx * target));
    row.push(-(sy * target));
    row
}

/// The eight equations for the coefficients of the map that takes the four
/// points `src` of a picture to the four points `dst` of the sheet: the left
/// sides, row by row, and the right sides.
pub fn perspective_system(src: &Vec<(usize, usize)>, dst: &Vec<(u128, u128)>) -> (system: (
    Vec<Vec<i128>>,
    Vec<i128>,
))
    requires
        src@.len() == 4,
        dst@.len() == 4,
        forall|i: int|
            0 <= i < 4 ==> (#[trigger] dst@[i]).0 <= i64::MAX && dst@[i].1 <= i64::MAX,
    ensures
        holds_system(system.0@, system.1@, picture_points(src@), sheet_points(dst@)),
{
    let mut a: Vec<Vec<i128>> = Vec::with_capacity(8);
    let mut b: Vec<i128> = Vec::with_capacity(8);
    let ghost s = picture_points(src@);
    let ghost d = sheet_points(dst@);
    let mut r: usize = 0;
    while r < 8
        invariant
            r <= 8,
            src@.len() == 4,
            dst@.len() == 4,
            forall|i: int|
                0 <= i < 4 ==> (#[trigger] dst@[i]).0 <= i64::MAX && dst@[i].1 <= i64::MAX,
            s == picture_points(src@),
            d == sheet_points(dst@),
            a@.len() == r,
            b@.len() == r,
            forall|j: int|
                0 <= j < r ==> {
                    &&& (#[trigger] a@[j])@.len() == 8
                    &&& b@[j] == system_rhs(d)[j]
                    &&& forall|k: int| 0 <= k < 8 ==> #[trigger] a@[j]@[k] == system_rows(s, d)[j][k]
                },
        decreases 8 - r,
    {
        let second = r >= 4;
        let i = if second {
            r - 4
        } else {
            r
        };
        proof {
            assert(dst@[i as int].0 <= i64::MAX && dst@[i as int].1 <= i64::MAX);
            assert(s[i as int] == (src@[i as int].0 as int, src@[i as int].1 as int));
            assert(d[i as int] == (dst@[i as int].0 as int, dst@[i as int].1 as int));
        }
        let row = equation(src[i], dst[i], second);
        a.push(row);
        b.push(
            if second {
                dst[i].1 as i128
            } else {
                dst[i].0 as i128
            },
        );
        r += 1;
    }
    (a, b)
}

/// The left side of an equation at the coefficients `c`.
pub open spec fn dot(row: Seq<int>, c: Seq<int>) -> int {
    row[0] * c[0] + row[1] * c[1] + row[2] * c[2] + row[3] * c[3] + row[4] * c[4] + row[5] * c[5]
        + row[6] * c[6] + row[7] * c[7]
}

/// Whether the fractions `n[k] / q` solve the system.
pub open spec fn solves(src: Seq<(int, int)>, dst: Seq<(int, int)>, n: Seq<int>, q: int) -> bool {
    &&& n.len() == 8
    &&& forall|r: int|
        0 <= r < 8 ==> dot(#[trigger] system_rows(src, dst)[r], n) == q * system_rhs(dst)[r]
}

/// The three-by-three matrix of the map with the coefficients `n[k] / q`,
/// times `q`, row by row.
pub open spec fn forward(n: Seq<int>, q: int) -> Seq<int> {
    seq![n[0], n[1], n[2], n[3], n[4], n[5], n[6], n[7], q]
}

/// The matrix `m` at the point `p`: the coordinates `(X, Y, W)` of the
/// point `(X / W, Y / W)`.
pub open spec fn apply(m: Seq<int>, p: (int, int)) -> (int, int, int) {
    (
        m[0] * p.0 + m[1] * p.1 + m[2],
        m[3] * p.0 + m[4] * p.1 + m[5],
        m[6] * p.0 + m[7] * p.1 + m[8],
    )
}

/// Whether `inverse` times `m` is `k` times the unit matrix.
pub open spec fn inverts(inverse: Seq<int>, m: Seq<int>, k: int) -> bool {
    &&& inverse[0] * m[0] + inverse[1] * m[3] + inverse[2] * m[6] == k
    &&& inverse[0] * m[1] + inverse[1] * m[4] + inverse[2] * m[7] == 0
    &&& inverse[0] * m[2] + inverse[1] * m[5] + inverse[2] * m[8] == 0
    &&& inverse[3] * m[0] + inverse[4] * m[3] + inverse[5] * m[6] == 0
    &&& inverse[3] * m[1] + inverse[4] * m[4] + inverse[5] * m[7] == k
    &&& inverse[3] * m[2] + inverse[4] * m[5] + inverse[5] * m[8] == 0
    &&& inverse[6] * m[0] + inverse[7] * m[3] + inverse[8] * m[6] == 0
    &&& inverse[6] * m[1] + inverse[7] * m[4] + inverse[8] * m[7] == 0
    &&& inverse[6] * m[2] + inverse[7] * m[5] + inverse[8] * m[8] == k
}

/// The map whose coefficients solve the system takes each point of the
/// picture to its point of the sheet: with `(X, Y, W)` the map at `src[i]`,
/// `X / W` and `Y / W` are the coordinates of `dst[i]`.
pub proof fn lemma_solution_projects(
    src: Seq<(int, int)>,
    dst: Seq<(int, int)>,
    n: Seq<int>,
    q: int,
    i: int,
)
    requires
        src.len() == 4,
        dst.len() == 4,
        solves(src, dst, n, q),
        0 <= i < 4,
    ensures
        apply(forward(n, q), src[i]).0 == dst[i].0 * apply(forward(n, q), src[i]).2,
        apply(forward(n, q), src[i]).1 == dst[i].1 * apply(forward(n, q), src[i]).2,
{
    let rows = system_rows(src, dst);
    let (sx, sy) = src[i];
    let (dx, dy) = dst[i];
    assert(dot(rows[i], n) == q * system_rhs(dst)[i]);
    assert(dot(rows[i + 4], n) == q * system_rhs(dst)[i + 4]);
    assert(rows[i] == x_row(src[i], dst[i]));
    assert(rows[i + 4] == y_row(src[i], dst[i]));
    let w = n[6] * sx + n[7] * sy + q;
    assert(sx * n[0] + sy * n[1] + n[2] + (-sx * dx) * n[6] + (-sy * dx) * n[7] == q * dx)
        by (nonlinear_arith)
        requires
            sx * n[0] + sy * n[1] + 1 * n[2] + 0 * n[3] + 0 * n[4] + 0 * n[5] + (-sx * dx) * n[6]
                + (-sy * dx) * n[7] == q * dx,
    ;
    assert(n[0] * sx + n[1] * sy + n[2] == dx * w) by (nonlinear_arith)
        requires
            sx * n[0] + sy * n[1] + n[2] + (-sx * dx) * n[6] + (-sy * dx) * n[7] == q * dx,
            w == n[6] * sx + n[7] * sy + q,
    ;
    assert(sx * n[3] + sy * n[4] + n[5] + (-sx * dy) * n[6] + (-sy * dy) * n[7] == q * dy)
        by (nonlinear_arith)
        requires
            0 * n[0] + 0 * n[1] + 0 * n[2] + sx * n[3] + sy * n[4] + 1 * n[5] + (-sx * dy) * n[6]
                + (-sy * dy) * n[7] == q * dy,
    ;
    assert(n[3] * sx + n[4] * sy + n[5] == dy * w) by (nonlinear_arith)
        requires
            sx * n[3] + sy * n[4] + n[5] + (-sx * dy) * n[6] + (-sy * dy) * n[7] == q * dy,
            w == n[6] * sx + n[7] * sy + q,
    ;
}

/// The inverse of that map takes each point of the sheet back to its point
/// of the picture: with `(U, V, T)` the inverse at `dst[i]`, `U / T` and
/// `V / T` are the coordinates of `src[i]`.
pub proof fn lemma_inverse_recovers(
    src: Seq<(int, int)>,
    dst: Seq<(int, int)>,
    n: Seq<int>,
    q: int,
    inverse: Seq<int>,
    k: int,
    i: int,
)
    requires
        src.len() == 4,
        dst.len() == 4,
        solves(src, dst, n, q),
        inverts(inverse, forward(n, q), k),
        0 <= i < 4,
    ensures
        apply(forward(n, q), src[i]).2 * apply(inverse, dst[i]).0 == k * src[i].0,
        apply(forward(n, q), src[i]).2 * apply(inverse, dst[i]).1 == k * src[i].1,
        apply(forward(n, q), src[i]).2 * apply(inverse, dst[i]).2 == k,
{
    lemma_solution_projects(src, dst, n, q, i);
    let m = forward(n, q);
    let (sx, sy) = src[i];
    let (dx, dy) = dst[i];
    let (x, y, w) = apply(m, src[i]);
    lemma_row_of_product(inverse[0], inverse[1], inverse[2], m, sx, sy, x, y, w, dx, dy, k, 0, 0);
    lemma_row_of_product(inverse[3], inverse[4], inverse[5], m, sx, sy, x, y, w, dx, dy, 0, k, 0);
    lemma_row_of_product(inverse[6], inverse[7], inverse[8], m, sx, sy, x, y, w, dx, dy, 0, 0, k);
}

/// One row of a matrix times `m`, at a point: the row times what `m` gives
/// at the point.
proof fn lemma_row_of_product(
    a: int,
    b: int,
    c: int,
    m: Seq<int>,
    sx: int,
    sy: int,
    x: int,
    y: int,
    w: int,
    dx: int,
    dy: int,
    e0: int,
    e1: int,
    e2: int,
)
    requires
        m.len() == 9,
        x == m[0] * sx + m[1] * sy + m[2],
        y == m[3] * sx + m[4] * sy + m[5],
        w == m[6] * sx + m[7] * sy + m[8],
        x == dx * w,
        y == dy * w,
        a * m[0] + b * m[3] + c * m[6] == e0,
        a * m[1] + b * m[4] + c * m[7] == e1,
        a * m[2] + b * m[5] + c * m[8] == e2,
    ensures
        w * (a * dx + b * dy + c) == e0 * sx + e1 * sy + e2,
{
    let (a0, a1, a2) = (a * m[0], a * m[1], a * m[2]);
    let (b0, b1, b2) = (b * m[3], b * m[4], b * m[5]);
    let (c0, c1, c2) = (c * m[6], c * m[7], c * m[8]);
    assert(a * x == a0 * sx + a1 * sy + a2) by (nonlinear_arith)
        requires
            x == m[0] * sx + m[1] * sy + m[2],
            a0 == a * m[0],
            a1 == a * m[1],
            a2 == a * m[2],
    ;
    assert(b * y == b0 * sx + b1 * sy + b2) by (nonlinear_arith)
        requires
            y == m[3] * sx + m[4] * sy + m[5],
            b0 == b * m[3],
            b1 == b * m[4],
            b2 == b * m[5],
    ;
    assert(c * w == c0 * sx + c1 * sy + c2) by (nonlinear_arith)
        requires
            w == m[6] * sx + m[7] * sy + m[8],
            c0 == c * m[6],
            c1 == c * m[7],
            c2 == c * m[8],
    ;
    assert(a0 * sx + b0 * sx + c0 * sx == e0 * sx) by (nonlinear_arith)
        requires
            a0 + b0 + c0 == e0,
    ;
    assert(a1 * sy + b1 * sy + c1 * sy == e1 * sy) by (nonlinear_arith)
        requires
            a1 + b1 + c1 == e1,
    ;
    assert(a * x + b * y + c * w == e0 * sx + e1 * sy + e2);
    assert(a * x == w * (a * dx)) by (nonlinear_arith)
        requires
            x == dx * w,
    ;
    assert(b * y == w * (b * dy)) by (nonlinear_arith)
        requires
            y == dy * w,
    ;
    assert(w * (a * dx + b * dy + c) == w * (a * dx) + w * (b * dy) + c * w) by (nonlinear_arith);
}

} // verus!
