//! Cell generators for the shape tool: rectangles, ellipses and lines drawn
//! on a plane perpendicular to one axis, and extrusion along that axis.

use crate::geom::IVec3;
use crate::grid::{is_bounding_box, le3};
use vstd::prelude::*;

verus! {

/// The primitive the shape tool draws.
#[derive(Clone, Copy, PartialEq, Eq, Debug, Structural)]
pub enum ShapePrimitive {
    Rectangle,
    Ellipse,
    Line,
}

impl Default for ShapePrimitive {
    fn default() -> (r: Self)
        ensures
            r == ShapePrimitive::Rectangle,
    {
        ShapePrimitive::Rectangle
    }
}

/// The two axes spanning the plane perpendicular to `axis`, in order.
pub open spec fn spec_other_axes(axis: usize) -> (usize, usize) {
    if axis == 0 {
        (1, 2)
    } else if axis == 1 {
        (0, 2)
    } else {
        (0, 1)
    }
}

pub fn other_axes(axis: usize) -> (r: (usize, usize))
    ensures
        r == spec_other_axes(axis),
{
    match axis {
        0 => (1, 2),
        1 => (0, 2),
        _ => (0, 1),
    }
}

/// The cell at depth `w` along `axis` and plane coordinates `(u, v)`.
pub open spec fn plane_cell(axis: usize, w: i32, u: i32, v: i32) -> IVec3 {
    if axis == 0 {
        IVec3 { x: w, y: u, z: v }
    } else if axis == 1 {
        IVec3 { x: u, y: w, z: v }
    } else {
        IVec3 { x: u, y: v, z: w }
    }
}

/// First plane coordinate of `q`.
pub open spec fn coord_u(axis: usize, q: IVec3) -> i32 {
    q.spec_comp(spec_other_axes(axis).0)
}

/// Second plane coordinate of `q`.
pub open spec fn coord_v(axis: usize, q: IVec3) -> i32 {
    q.spec_comp(spec_other_axes(axis).1)
}

proof fn lemma_plane_cell(axis: usize, w: i32, u: i32, v: i32)
    requires
        axis < 3,
    ensures
        plane_cell(axis, w, u, v).spec_comp(axis) == w,
        coord_u(axis, plane_cell(axis, w, u, v)) == u,
        coord_v(axis, plane_cell(axis, w, u, v)) == v,
        forall|q: IVec3|
            q.spec_comp(axis) == w && coord_u(axis, q) == u && coord_v(axis, q) == v ==> q
                == plane_cell(axis, w, u, v),
{
}

fn cell_from(axis: usize, w: i32, u: i32, v: i32) -> (c: IVec3)
    requires
        axis < 3,
    ensures
        c == plane_cell(axis, w, u, v),
{
    if axis == 0 {
        IVec3 { x: w, y: u, z: v }
    } else if axis == 1 {
        IVec3 { x: u, y: w, z: v }
    } else {
        IVec3 { x: u, y: v, z: w }
    }
}

pub open spec fn min_i(a: i32, b: i32) -> i32 {
    if a <= b { a } else { b }
}

pub open spec fn max_i(a: i32, b: i32) -> i32 {
    if a >= b { a } else { b }
}

/// Plane bounds `(umin, umax, vmin, vmax)` of the rectangle spanned by two
/// corners, and the depth of the first corner.
pub open spec fn span(c1: IVec3, c2: IVec3, axis: usize) -> (i32, i32, i32, i32, i32) {
    let (ua, va) = spec_other_axes(axis);
    (
        min_i(c1.spec_comp(ua), c2.spec_comp(ua)),
        max_i(c1.spec_comp(ua), c2.spec_comp(ua)),
        min_i(c1.spec_comp(va), c2.spec_comp(va)),
        max_i(c1.spec_comp(va), c2.spec_comp(va)),
        c1.spec_comp(axis),
    )
}

/// Which cells of the span a plane shape keeps.
pub enum PlaneKind {
    Rect,
    Ellipse,
}

/// The cell `(u, v)` lies in the ellipse inscribed in the span: with the
/// ellipse centred on the span and its radii half the span's extents (in cell
/// units, measured at cell centres), `(du/ru)² + (dv/rv)² <= 1`, compared
/// exactly in integers.
pub open spec fn in_ellipse(umin: int, umax: int, vmin: int, vmax: int, u: int, v: int) -> bool {
    let x = 2 * u - umin - umax;
    let y = 2 * v - vmin - vmax;
    let uu = umax - umin + 1;
    let vv = vmax - vmin + 1;
    x * x * (vv * vv) + y * y * (uu * uu) <= uu * uu * (vv * vv)
}

/// Whether the shape keeps cell `(u, v)` of the span.
pub open spec fn keeps(
    kind: PlaneKind,
    filled: bool,
    umin: int,
    umax: int,
    vmin: int,
    vmax: int,
    u: int,
    v: int,
) -> bool {
    match kind {
        PlaneKind::Rect => filled || u == umin || u == umax || v == vmin || v == vmax,
        PlaneKind::Ellipse => in_ellipse(umin, umax, vmin, vmax, u, v) && (filled || !in_ellipse(
            umin,
            umax,
            vmin,
            vmax,
            u - 1,
            v,
        ) || !in_ellipse(umin, umax, vmin, vmax, u + 1, v) || !in_ellipse(
            umin,
            umax,
            vmin,
            vmax,
            u,
            v - 1,
        ) || !in_ellipse(umin, umax, vmin, vmax, u, v + 1)),
    }
}

/// `q` is one of the cells a plane shape over the span of `c1`, `c2` emits.
pub open spec fn shape_member(kind: PlaneKind, c1: IVec3, c2: IVec3, axis: usize, filled: bool, q: IVec3) -> bool {
    let (umin, umax, vmin, vmax, w) = span(c1, c2, axis);
    &&& q.spec_comp(axis) == w
    &&& umin <= coord_u(axis, q) <= umax
    &&& vmin <= coord_v(axis, q) <= vmax
    &&& keeps(kind, filled, umin as int, umax as int, vmin as int, vmax as int, coord_u(axis, q) as int, coord_v(axis, q) as int)
}

/// Row-major order on the plane: by `u`, then by `v`.
pub open spec fn uv_before(axis: usize, a: IVec3, b: IVec3) -> bool {
    coord_u(axis, a) < coord_u(axis, b) || (coord_u(axis, a) == coord_u(axis, b) && coord_v(axis, a)
        < coord_v(axis, b))
}

/// Inputs for which the outline test stays in range: the neighbours of the
/// span's border cells are still `i32` coordinates.
pub open spec fn ellipse_fits(c1: IVec3, c2: IVec3, axis: usize) -> bool {
    let (umin, umax, vmin, vmax, w) = span(c1, c2, axis);
    &&& i32::MIN < umin && umax < i32::MAX
    &&& i32::MIN < vmin && vmax < i32::MAX
}

fn in_ellipse_exec(umin: i64, umax: i64, vmin: i64, vmax: i64, u: i64, v: i64) -> (r: bool)
    requires
        umin <= umax,
        vmin <= vmax,
        umin - 1 <= u <= umax + 1,
        vmin - 1 <= v <= vmax + 1,
        i32::MIN < umin,
        umax < i32::MAX,
        i32::MIN < vmin,
        vmax < i32::MAX,
    ensures
        r == in_ellipse(umin as int, umax as int, vmin as int, vmax as int, u as int, v as int),
{
    let xs = 2 * u - umin - umax;
    let ys = 2 * v - vmin - vmax;
    let x = (if xs < 0 { -xs } else { xs }) as u128;
    let y = (if ys < 0 { -ys } else { ys }) as u128;
    assert(x == xs || x == -xs);
    assert(y == ys || y == -ys);
    let uu = (umax - umin + 1) as u128;
    let vv = (vmax - vmin + 1) as u128;
    assert(x <= 0xffff_ffff && y <= 0xffff_ffff && 1 <= uu <= 0xffff_fffe && 1 <= vv <= 0xffff_fffe);
    assert(x * x <= 0xffff_fffe_0000_0001 && y * y <= 0xffff_fffe_0000_0001) by (nonlinear_arith)
        requires
            x <= 0xffff_ffff,
            y <= 0xffff_ffff,
    ;
    assert(1 <= uu * uu <= 0xffff_fffc_0000_0004 && 1 <= vv * vv <= 0xffff_fffc_0000_0004) by (nonlinear_arith)
        requires
            1 <= uu <= 0xffff_fffe,
            1 <= vv <= 0xffff_fffe,
    ;
    let xx = x * x;
    let yy = y * y;
    let uu2 = uu * uu;
    let vv2 = vv * vv;
    assert(xx * vv2 <= 0xffff_fffa_0000_000c_ffff_fff4_0000_0004 && uu2 * vv2
        <= 0xffff_fff8_0000_0018_ffff_ffe0_0000_0010) by (nonlinear_arith)
        requires
            xx <= 0xffff_fffe_0000_0001,
            uu2 <= 0xffff_fffc_0000_0004,
            vv2 <= 0xffff_fffc_0000_0004,
    ;
    proof {
        assert(xx == xs * xs && yy == ys * ys) by (nonlinear_arith)
            requires
                xx == x * x,
                yy == y * y,
                x == xs || x == -xs,
                y == ys || y == -ys,
        ;
    }
    if yy > vv2 {
        assert(yy * uu2 > vv2 * uu2 && xx * vv2 >= 0) by (nonlinear_arith)
            requires
                yy > vv2,
                uu2 >= 1,
                xx >= 0,
                vv2 >= 0,
        ;
        return false;
    }
    let rest = vv2 - yy;
    assert(uu2 * rest <= uu2 * vv2) by (nonlinear_arith)
        requires
            rest <= vv2,
            uu2 >= 0,
    ;
    assert((xx * vv2 <= uu2 * rest) == (xx * vv2 + yy * uu2 <= uu2 * vv2)) by (nonlinear_arith)
        requires
            rest == vv2 - yy,
    ;
    xx * vv2 <= uu2 * rest
}

fn keeps_exec(
    kind: &PlaneKind,
    filled: bool,
    umin: i64,
    umax: i64,
    vmin: i64,
    vmax: i64,
    u: i64,
    v: i64,
) -> (r: bool)
    requires
        umin <= u <= umax,
        vmin <= v <= vmax,
        i32::MIN < umin,
        umax < i32::MAX,
        i32::MIN < vmin,
        vmax < i32::MAX,
    ensures
        r == keeps(*kind, filled, umin as int, umax as int, vmin as int, vmax as int, u as int, v as int),
{
    match kind {
        PlaneKind::Rect => filled || u == umin || u == umax || v == vmin || v == vmax,
        PlaneKind::Ellipse => {
            if !in_ellipse_exec(umin, umax, vmin, vmax, u, v) {
                return false;
            }
            if filled {
                return true;
            }
            !in_ellipse_exec(umin, umax, vmin, vmax, u - 1, v) || !in_ellipse_exec(
                umin,
                umax,
                vmin,
                vmax,
                u + 1,
                v,
            ) || !in_ellipse_exec(umin, umax, vmin, vmax, u, v - 1) || !in_ellipse_exec(
                umin,
                umax,
                vmin,
                vmax,
                u,
                v + 1,
            )
        },
    }
}

/// Cells of a plane shape over the span of `c1`, `c2`, in row-major order.
fn plane_cells(kind: PlaneKind, c1: IVec3, c2: IVec3, axis: usize, filled: bool) -> (r: Vec<IVec3>)
    requires
        axis < 3,
        ellipse_fits(c1, c2, axis),
    ensures
        forall|i: int| 0 <= i < r.len() ==> shape_member(kind, c1, c2, axis, filled, #[trigger] r@[i]),
        forall|q: IVec3| #[trigger] shape_member(kind, c1, c2, axis, filled, q) ==> r@.contains(q),
        forall|i: int, j: int| 0 <= i < j < r.len() ==> uv_before(axis, r@[i], r@[j]),
{
    let (ua, va) = other_axes(axis);
    let a1u = c1.comp(ua);
    let a2u = c2.comp(ua);
    let a1v = c1.comp(va);
    let a2v = c2.comp(va);
    let umin = if a1u <= a2u { a1u } else { a2u };
    let umax = if a1u >= a2u { a1u } else { a2u };
    let vmin = if a1v <= a2v { a1v } else { a2v };
    let vmax = if a1v >= a2v { a1v } else { a2v };
    let w = c1.comp(axis);
    let ghost sp = span(c1, c2, axis);
    assert(sp == (umin, umax, vmin, vmax, w));
    let mut out: Vec<IVec3> = Vec::new();
    let ghost mut at: Map<IVec3, int> = Map::empty();
    let mut u: i64 = umin as i64;
    while u <= umax as i64
        invariant
            axis < 3,
            sp == (umin, umax, vmin, vmax, w),
            sp == span(c1, c2, axis),
            ellipse_fits(c1, c2, axis),
            spec_other_axes(axis) == (ua, va),
            umin <= umax,
            vmin <= vmax,
            umin <= u <= umax as int + 1,
            forall|i: int| 0 <= i < out.len() ==> shape_member(kind, c1, c2, axis, filled, #[trigger] out@[i]),
            forall|i: int| 0 <= i < out.len() ==> coord_u(axis, #[trigger] out@[i]) < u,
            forall|i: int, j: int| 0 <= i < j < out.len() ==> uv_before(axis, out@[i], out@[j]),
            forall|q: IVec3|
                #![trigger at.contains_key(q)]
                at.contains_key(q) ==> 0 <= at[q] < out.len() && out@[at[q]] == q,
            forall|q: IVec3|
                #![trigger shape_member(kind, c1, c2, axis, filled, q)]
                shape_member(kind, c1, c2, axis, filled, q) && coord_u(axis, q) < u ==> at.contains_key(q),
        decreases umax as int + 1 - u,
    {
        let mut v: i64 = vmin as i64;
        while v <= vmax as i64
            invariant
                axis < 3,
                sp == (umin, umax, vmin, vmax, w),
                sp == span(c1, c2, axis),
                ellipse_fits(c1, c2, axis),
                spec_other_axes(axis) == (ua, va),
                umin <= umax,
                vmin <= vmax,
                umin <= u <= umax,
                vmin <= v <= vmax as int + 1,
                forall|i: int| 0 <= i < out.len() ==> shape_member(kind, c1, c2, axis, filled, #[trigger] out@[i]),
                forall|i: int| 0 <= i < out.len() ==> coord_u(axis, #[trigger] out@[i]) < u || (coord_u(
                    axis,
                    out@[i],
                ) == u && coord_v(axis, out@[i]) < v),
                forall|i: int, j: int| 0 <= i < j < out.len() ==> uv_before(axis, out@[i], out@[j]),
                forall|q: IVec3|
                    #![trigger at.contains_key(q)]
                    at.contains_key(q) ==> 0 <= at[q] < out.len() && out@[at[q]] == q,
                forall|q: IVec3|
                    #![trigger shape_member(kind, c1, c2, axis, filled, q)]
                    shape_member(kind, c1, c2, axis, filled, q) && (coord_u(axis, q) < u || (coord_u(
                        axis,
                        q,
                    ) == u && coord_v(axis, q) < v)) ==> at.contains_key(q),
            decreases vmax as int + 1 - v,
        {
            let keep = keeps_exec(
                &kind,
                filled,
                umin as i64,
                umax as i64,
                vmin as i64,
                vmax as i64,
                u,
                v,
            );
            let cell = cell_from(axis, w, u as i32, v as i32);
            proof {
                lemma_plane_cell(axis, w, u as i32, v as i32);
            }
            if keep {
                out.push(cell);
                proof {
                    at = at.insert(cell, out.len() - 1);
                }
            }
            proof {
                assert forall|q: IVec3|
                    #![trigger shape_member(kind, c1, c2, axis, filled, q)]
                    shape_member(kind, c1, c2, axis, filled, q) && (coord_u(axis, q) < u || (
                    coord_u(axis, q) == u && coord_v(axis, q) < v + 1)) implies at.contains_key(q) by {
                    if coord_u(axis, q) == u && coord_v(axis, q) == v {
                        assert(q == cell);
                    }
                }
            }
            v = v + 1;
        }
        proof {
            assert forall|q: IVec3|
                #![trigger shape_member(kind, c1, c2, axis, filled, q)]
                shape_member(kind, c1, c2, axis, filled, q) && coord_u(axis, q) < u + 1 implies at.contains_key(q) by {
                if coord_u(axis, q) == u {
                    assert(coord_v(axis, q) <= vmax);
                }
            }
        }
        u = u + 1;
    }
    proof {
        assert forall|q: IVec3| #[trigger] shape_member(kind, c1, c2, axis, filled, q) implies out@.contains(q) by {
            assert(out@[at[q]] == q);
        }
    }
    out
}

/// Rectangle on the plane through `c1` perpendicular to `axis`, spanning the
/// corners' plane coordinates; outline only unless `filled`. Cells come in
/// row-major order.
pub fn rect_cells(c1: IVec3, c2: IVec3, axis: usize, filled: bool) -> (r: Vec<IVec3>)
    requires
        axis < 3,
        ellipse_fits(c1, c2, axis),
    ensures
        forall|i: int| 0 <= i < r.len() ==> shape_member(PlaneKind::Rect, c1, c2, axis, filled, #[trigger] r@[i]),
        forall|q: IVec3| #[trigger] shape_member(PlaneKind::Rect, c1, c2, axis, filled, q) ==> r@.contains(q),
        forall|i: int, j: int| 0 <= i < j < r.len() ==> uv_before(axis, r@[i], r@[j]),
{
    plane_cells(PlaneKind::Rect, c1, c2, axis, filled)
}

/// Ellipse inscribed in the rectangle the corners span; with `filled` false,
/// only the cells with a 4-neighbour outside the ellipse. Row-major order.
pub fn ellipse_cells(c1: IVec3, c2: IVec3, axis: usize, filled: bool) -> (r: Vec<IVec3>)
    requires
        axis < 3,
        ellipse_fits(c1, c2, axis),
    ensures
        forall|i: int| 0 <= i < r.len() ==> shape_member(PlaneKind::Ellipse, c1, c2, axis, filled, #[trigger] r@[i]),
        forall|q: IVec3| #[trigger] shape_member(PlaneKind::Ellipse, c1, c2, axis, filled, q) ==> r@.contains(q),
        forall|i: int, j: int| 0 <= i < j < r.len() ==> uv_before(axis, r@[i], r@[j]),
{
    plane_cells(PlaneKind::Ellipse, c1, c2, axis, filled)
}


// ---------------------------------------------------------------------------
// Lines
// ---------------------------------------------------------------------------

pub open spec fn abs_i(x: int) -> int {
    if x < 0 { -x } else { x }
}

/// Bresenham's error term at plane cell `(u, v)` on the way from `(u0, v0)`
/// to `(u1, v1)`.
pub open spec fn line_err(u0: int, v0: int, u1: int, v1: int, u: int, v: int) -> int {
    let a = abs_i(u1 - u0);
    let b = abs_i(v1 - v0);
    a * (1 + abs_i(v - v0)) - b * (1 + abs_i(u - u0))
}

/// The cell after `(u, v)` on Bresenham's line from `(u0, v0)` to `(u1, v1)`:
/// step along `u` when twice the error is at least `-|Δv|`, along `v` when it
/// is at most `|Δu|` (both when both hold).
pub open spec fn line_next(u0: int, v0: int, u1: int, v1: int, u: int, v: int) -> (int, int) {
    let a = abs_i(u1 - u0);
    let b = abs_i(v1 - v0);
    let su = if u0 < u1 { 1int } else { -1int };
    let sv = if v0 < v1 { 1int } else { -1int };
    let e2 = 2 * line_err(u0, v0, u1, v1, u, v);
    (if e2 >= -b { u + su } else { u }, if e2 <= a { v + sv } else { v })
}

/// Endpoints close enough for the error term to stay in `i32` range.
pub open spec fn line_fits(c1: IVec3, c2: IVec3, axis: usize) -> bool {
    let (ua, va) = spec_other_axes(axis);
    abs_i(c2.spec_comp(ua) - c1.spec_comp(ua)) + abs_i(c2.spec_comp(va) - c1.spec_comp(va))
        < 0x2000_0000
}

proof fn lemma_line_no_overshoot(a: int, b: int, i: int, j: int, err: int)
    requires
        0 <= i <= a,
        0 <= j <= b,
        err == a * (1 + j) - b * (1 + i),
        !(i == a && j == b),
    ensures
        i == a ==> 2 * err < -b,
        j == b ==> 2 * err > a,
{
    if i == a {
        assert(a * (1 + j) <= a * b) by (nonlinear_arith)
            requires
                0 <= a,
                j + 1 <= b,
        ;
        assert(b * (1 + a) == b + a * b) by (nonlinear_arith);
    }
    if j == b {
        assert(b * (1 + i) <= b * a) by (nonlinear_arith)
            requires
                0 <= b,
                i + 1 <= a,
        ;
        assert(a * (1 + b) == a + a * b) by (nonlinear_arith);
    }
}

proof fn lemma_line_err_step(a: int, b: int, i: int, j: int)
    ensures
        a * (1 + j) - b * (1 + (i + 1)) == a * (1 + j) - b * (1 + i) - b,
        a * (1 + (j + 1)) - b * (1 + i) == a * (1 + j) - b * (1 + i) + a,
{
    assert(b * (1 + (i + 1)) == b * (1 + i) + b) by (nonlinear_arith);
    assert(a * (1 + (j + 1)) == a * (1 + j) + a) by (nonlinear_arith);
}

/// `x` lies between `lo` and `hi` (in either order).
pub open spec fn between(lo: int, x: int, hi: int) -> bool {
    (lo <= x <= hi) || (hi <= x <= lo)
}

/// A cell the line can reach: within the endpoints' box, with the error term
/// in its working range.
pub open spec fn line_state_ok(u0: int, v0: int, u1: int, v1: int, u: int, v: int) -> bool {
    let a = abs_i(u1 - u0);
    let b = abs_i(v1 - v0);
    &&& between(u0, u, u1)
    &&& between(v0, v, v1)
    &&& -3 * b <= 2 * line_err(u0, v0, u1, v1, u, v) <= 3 * a
}

/// One Bresenham step from `(u, v)` with error `err`.
fn line_step(
    su0: i32,
    sv0: i32,
    u1: i32,
    v1: i32,
    u: i32,
    v: i32,
    err: i32,
    du: i32,
    dv: i32,
    su: i32,
    sv: i32,
) -> (res: (i32, i32, i32))
    requires
        du == abs_i(u1 - su0),
        dv == -abs_i(v1 - sv0),
        su == (if su0 < u1 { 1int } else { -1int }),
        sv == (if sv0 < v1 { 1int } else { -1int }),
        du - dv < 0x2000_0000,
        line_state_ok(su0 as int, sv0 as int, u1 as int, v1 as int, u as int, v as int),
        err == line_err(su0 as int, sv0 as int, u1 as int, v1 as int, u as int, v as int),
        !(u == u1 && v == v1),
    ensures
        (res.0 as int, res.1 as int) == line_next(su0 as int, sv0 as int, u1 as int, v1 as int, u as int, v as int),
        res.2 == line_err(su0 as int, sv0 as int, u1 as int, v1 as int, res.0 as int, res.1 as int),
        line_state_ok(su0 as int, sv0 as int, u1 as int, v1 as int, res.0 as int, res.1 as int),
        abs_i(res.0 - su0) + abs_i(res.1 - sv0) > abs_i(u - su0) + abs_i(v - sv0),
{
    let ghost a = du as int;
    let ghost b = -dv as int;
    let ghost i = abs_i(u - su0);
    let ghost j = abs_i(v - sv0);
    proof {
        assert(0 <= i <= a && 0 <= j <= b);
        assert(i == a ==> u == u1);
        assert(j == b ==> v == v1);
        lemma_line_no_overshoot(a, b, i, j, err as int);
        lemma_line_err_step(a, b, i, j);
        lemma_line_err_step(a, b, i + 1, j);
    }
    let mut err = err;
    let mut u = u;
    let mut v = v;
    let e2 = 2 * err;
    if e2 >= dv {
        err = err + dv;
        u = u + su;
    }
    if e2 <= du {
        err = err + du;
        v = v + sv;
    }
    (u, v, err)
}

/// Bresenham line on the plane through `c1` perpendicular to `axis`, from
/// `c1`'s plane coordinates to `c2`'s. The cells form the path that starts
/// at `c1`, steps by `line_next`, and stops on first reaching `c2`.
#[verifier::spinoff_prover]
pub fn line2d_cells(c1: IVec3, c2: IVec3, axis: usize) -> (r: Vec<IVec3>)
    requires
        axis < 3,
        line_fits(c1, c2, axis),
    ensures
        ({
            let (ua, va) = spec_other_axes(axis);
            let w = c1.spec_comp(axis);
            let (u0, v0) = (c1.spec_comp(ua) as int, c1.spec_comp(va) as int);
            let (u1, v1) = (c2.spec_comp(ua) as int, c2.spec_comp(va) as int);
            &&& r.len() >= 1
            &&& r@[0] == plane_cell(axis, w, u0 as i32, v0 as i32)
            &&& r@[r.len() - 1] == plane_cell(axis, w, u1 as i32, v1 as i32)
            &&& forall|k: int| 0 <= k < r.len() ==> (#[trigger] r@[k]).spec_comp(axis) == w
            &&& forall|k: int|
                0 <= k < r.len() - 1 ==> !(coord_u(axis, #[trigger] r@[k]) == u1 && coord_v(axis, r@[k])
                    == v1) && line_next(u0, v0, u1, v1, coord_u(axis, r@[k]) as int, coord_v(axis, r@[k]) as int)
                    == (coord_u(axis, r@[k + 1]) as int, coord_v(axis, r@[k + 1]) as int)
        }),
{
    let (ua, va) = other_axes(axis);
    let w = c1.comp(axis);
    let mut u0 = c1.comp(ua);
    let mut v0 = c1.comp(va);
    let u1 = c2.comp(ua);
    let v1 = c2.comp(va);
    let su0 = u0;
    let sv0 = v0;
    let du = if u1 >= u0 { u1 - u0 } else { u0 - u1 };
    let dv = -(if v1 >= v0 { v1 - v0 } else { v0 - v1 });
    let su: i32 = if u0 < u1 { 1 } else { -1 };
    let sv: i32 = if v0 < v1 { 1 } else { -1 };
    let mut err = du + dv;
    let mut out: Vec<IVec3> = Vec::new();
    proof {
        assert(line_err(su0 as int, sv0 as int, u1 as int, v1 as int, u0 as int, v0 as int) == err) by (nonlinear_arith)
            requires
                err == du + dv,
                u0 == su0,
                v0 == sv0,
                du == abs_i(u1 - su0),
                dv == -abs_i(v1 - sv0),
        ;
    }
    loop
        invariant_except_break
            out.len() > 0 ==> line_next(su0 as int, sv0 as int, u1 as int, v1 as int, coord_u(axis, out@[out.len() - 1]) as int, coord_v(axis, out@[out.len() - 1]) as int)
                == (u0 as int, v0 as int),
            forall|k: int|
                0 <= k < out.len() ==> !(coord_u(axis, #[trigger] out@[k]) == u1 && coord_v(axis, out@[k])
                    == v1),
        invariant
            axis < 3,
            spec_other_axes(axis) == (ua, va),
            w == c1.spec_comp(axis),
            su0 == c1.spec_comp(ua),
            sv0 == c1.spec_comp(va),
            u1 == c2.spec_comp(ua),
            v1 == c2.spec_comp(va),
            du == abs_i(u1 - su0),
            dv == -abs_i(v1 - sv0),
            du - dv < 0x2000_0000,
            su == (if su0 < u1 { 1int } else { -1int }),
            sv == (if sv0 < v1 { 1int } else { -1int }),
            line_state_ok(su0 as int, sv0 as int, u1 as int, v1 as int, u0 as int, v0 as int),
            err == line_err(su0 as int, sv0 as int, u1 as int, v1 as int, u0 as int, v0 as int),
            out.len() == 0 ==> u0 == su0 && v0 == sv0,
            out.len() > 0 ==> out@[0] == plane_cell(axis, w, su0, sv0),
            forall|k: int| 0 <= k < out.len() ==> (#[trigger] out@[k]).spec_comp(axis) == w,
            forall|k: int|
                0 <= k < out.len() - 1 ==> line_next(su0 as int, sv0 as int, u1 as int, v1 as int, coord_u(axis, #[trigger] out@[k]) as int, coord_v(axis, out@[k]) as int)
                    == (coord_u(axis, out@[k + 1]) as int, coord_v(axis, out@[k + 1]) as int),
        ensures
            out.len() >= 1,
            out@[0] == plane_cell(axis, w, su0, sv0),
            out@[out.len() - 1] == plane_cell(axis, w, u1, v1),
            forall|k: int| 0 <= k < out.len() ==> (#[trigger] out@[k]).spec_comp(axis) == w,
            forall|k: int|
                0 <= k < out.len() - 1 ==> !(coord_u(axis, #[trigger] out@[k]) == u1 && coord_v(axis, out@[k])
                    == v1),
            forall|k: int|
                0 <= k < out.len() - 1 ==> line_next(su0 as int, sv0 as int, u1 as int, v1 as int, coord_u(axis, #[trigger] out@[k]) as int, coord_v(axis, out@[k]) as int)
                    == (coord_u(axis, out@[k + 1]) as int, coord_v(axis, out@[k + 1]) as int),
        decreases (du - dv) - (abs_i(u0 - su0) + abs_i(v0 - sv0)),
    {
        let cell = cell_from(axis, w, u0, v0);
        proof {
            lemma_plane_cell(axis, w, u0, v0);
        }
        let ghost prev = out@;
        out.push(cell);
        proof {
            assert forall|k: int| 0 <= k < out.len() - 1 implies line_next(su0 as int, sv0 as int, u1 as int, v1 as int, coord_u(axis, #[trigger] out@[k]) as int, coord_v(axis, out@[k]) as int)
                == (coord_u(axis, out@[k + 1]) as int, coord_v(axis, out@[k + 1]) as int) by {
                assert(out@[k] == prev[k]);
                if k + 1 < prev.len() {
                    assert(out@[k + 1] == prev[k + 1]);
                }
            }
        }
        if u0 == u1 && v0 == v1 {
            break;
        }
        let (nu, nv, nerr) = line_step(su0, sv0, u1, v1, u0, v0, err, du, dv, su, sv);
        u0 = nu;
        v0 = nv;
        err = nerr;
    }
    out
}


// ---------------------------------------------------------------------------
// Extrusion
// ---------------------------------------------------------------------------

/// `cells` moved by `off` along `axis`.
pub open spec fn shifted(cells: Seq<IVec3>, axis: usize, off: int) -> Seq<IVec3> {
    cells.map_values(|c: IVec3| c.spec_with(axis, (c.spec_comp(axis) + off) as i32))
}

/// Layers `0..t` of an extrusion: layer `k` is `cells` moved by `k * s`
/// along `axis`, layers concatenated in order.
pub open spec fn extrude_seq(cells: Seq<IVec3>, axis: usize, s: int, t: nat) -> Seq<IVec3>
    decreases t,
{
    if t == 0 {
        Seq::empty()
    } else {
        extrude_seq(cells, axis, s, (t - 1) as nat) + shifted(cells, axis, (t - 1) * s)
    }
}

pub open spec fn norm_thickness(thickness: i32) -> int {
    if thickness < 1 { 1 } else { thickness as int }
}

pub open spec fn norm_sign(sign: i32) -> int {
    if sign == 0 { 1 } else { sign as int }
}

/// Every layer of the extrusion stays in `i32` range.
pub open spec fn extrude_fits(cells: Seq<IVec3>, axis: usize, t: int, s: int) -> bool {
    &&& i32::MIN <= (t - 1) * s <= i32::MAX
    &&& forall|i: int|
        0 <= i < cells.len() ==> i32::MIN <= (#[trigger] cells[i]).spec_comp(axis) + (t - 1) * s
            <= i32::MAX
}

proof fn lemma_layer_in_range(c: int, k: int, t: int, s: int)
    requires
        0 <= k < t,
        i32::MIN <= c <= i32::MAX,
        i32::MIN <= c + (t - 1) * s <= i32::MAX,
    ensures
        i32::MIN <= c + k * s <= i32::MAX,
{
    assert((0 <= k * s <= (t - 1) * s) || ((t - 1) * s <= k * s <= 0)) by (nonlinear_arith)
        requires
            0 <= k < t,
    ;
}

/// Copies of `cells` stacked along `axis`: `thickness` layers (at least one),
/// layer `k` moved by `k * sign` (a zero sign counts as +1).
pub fn extrude(cells: &[IVec3], axis: usize, thickness: i32, sign: i32) -> (r: Vec<IVec3>)
    requires
        axis < 3,
        extrude_fits(cells@, axis, norm_thickness(thickness), norm_sign(sign)),
    ensures
        r@ == extrude_seq(cells@, axis, norm_sign(sign), norm_thickness(thickness) as nat),
{
    let t: i32 = if thickness < 1 { 1 } else { thickness };
    let s: i32 = if sign == 0 { 1 } else { sign };
    let mut out: Vec<IVec3> = Vec::new();
    let mut k: i32 = 0;
    while k < t
        invariant
            axis < 3,
            t == norm_thickness(thickness),
            s == norm_sign(sign),
            0 <= k <= t,
            extrude_fits(cells@, axis, t as int, s as int),
            out@ == extrude_seq(cells@, axis, s as int, k as nat),
        decreases t - k,
    {
        let ghost before = out@;
        let ghost layer = shifted(cells@, axis, k * s);
        let mut i: usize = 0;
        while i < cells.len()
            invariant
                axis < 3,
                0 <= k < t,
                t == norm_thickness(thickness),
                s == norm_sign(sign),
                i <= cells.len(),
                extrude_fits(cells@, axis, t as int, s as int),
                layer == shifted(cells@, axis, k * s),
                out@ == before + layer.take(i as int),
            decreases cells.len() - i,
        {
            let c = cells[i];
            proof {
                assert(i32::MIN <= cells@[i as int].spec_comp(axis) + (t - 1) * s <= i32::MAX);
                lemma_layer_in_range(c.spec_comp(axis) as int, k as int, t as int, s as int);
                lemma_layer_in_range(0, k as int, t as int, s as int);
            }
            let off = k * s;
            let moved = c.with(axis, c.comp(axis) + off);
            out.push(moved);
            proof {
                assert(layer.take(i + 1) =~= layer.take(i as int).push(moved));
                assert(out@ =~= before + layer.take(i + 1));
            }
            i = i + 1;
        }
        proof {
            assert(layer.take(cells.len() as int) =~= layer);
            assert(extrude_seq(cells@, axis, s as int, (k + 1) as nat) == extrude_seq(cells@, axis, s as int, k as nat) + shifted(cells@, axis, k * s));
        }
        k = k + 1;
    }
    out
}

// ---------------------------------------------------------------------------
// Whole shapes
// ---------------------------------------------------------------------------

/// `base` is what the primitive's own generator returns for these corners.
pub open spec fn is_shape_base(prim: ShapePrimitive, c1: IVec3, c2: IVec3, axis: usize, base: Seq<IVec3>) -> bool {
    match prim {
        ShapePrimitive::Rectangle => {
            &&& forall|i: int| 0 <= i < base.len() ==> shape_member(PlaneKind::Rect, c1, c2, axis, true, #[trigger] base[i])
            &&& forall|q: IVec3| #[trigger] shape_member(PlaneKind::Rect, c1, c2, axis, true, q) ==> base.contains(q)
            &&& forall|i: int, j: int| 0 <= i < j < base.len() ==> uv_before(axis, base[i], base[j])
        },
        ShapePrimitive::Ellipse => {
            &&& forall|i: int| 0 <= i < base.len() ==> shape_member(PlaneKind::Ellipse, c1, c2, axis, true, #[trigger] base[i])
            &&& forall|q: IVec3| #[trigger] shape_member(PlaneKind::Ellipse, c1, c2, axis, true, q) ==> base.contains(q)
            &&& forall|i: int, j: int| 0 <= i < j < base.len() ==> uv_before(axis, base[i], base[j])
        },
        ShapePrimitive::Line => {
            let (ua, va) = spec_other_axes(axis);
            let w = c1.spec_comp(axis);
            let (u0, v0) = (c1.spec_comp(ua) as int, c1.spec_comp(va) as int);
            let (u1, v1) = (c2.spec_comp(ua) as int, c2.spec_comp(va) as int);
            &&& base.len() >= 1
            &&& base[0] == plane_cell(axis, w, u0 as i32, v0 as i32)
            &&& base[base.len() - 1] == plane_cell(axis, w, u1 as i32, v1 as i32)
            &&& forall|k: int| 0 <= k < base.len() ==> (#[trigger] base[k]).spec_comp(axis) == w
            &&& forall|k: int|
                0 <= k < base.len() - 1 ==> !(coord_u(axis, #[trigger] base[k]) == u1 && coord_v(axis, base[k])
                    == v1) && line_next(u0, v0, u1, v1, coord_u(axis, base[k]) as int, coord_v(axis, base[k]) as int)
                    == (coord_u(axis, base[k + 1]) as int, coord_v(axis, base[k + 1]) as int)
        },
    }
}

/// Extrusion direction: the normal's sign (zero counts as +1), flipped for a
/// negative thickness.
pub open spec fn shape_dir(thickness: i32, normal_sign: i32) -> int {
    if thickness >= 0 { norm_sign(normal_sign) } else { -norm_sign(normal_sign) }
}

/// The layer count handed to `extrude`: one more than the thickness's
/// magnitude, that magnitude taken as a `u32` and reinterpreted as `i32`
/// (so `i32::MIN` gives a count below one, which `extrude` treats as one).
pub open spec fn shape_count(thickness: i32) -> i32 {
    if thickness == i32::MIN { (i32::MIN + 1) as i32 } else { (abs_i(thickness as int) + 1) as i32 }
}

/// Layers the shape has.
pub open spec fn shape_layers(thickness: i32) -> int {
    norm_thickness(shape_count(thickness))
}

/// Inputs the shape generator handles: the plane arithmetic fits, and every
/// layer's depth is an `i32`.
pub open spec fn shape_fits(prim: ShapePrimitive, c1: IVec3, c2: IVec3, axis: usize, thickness: i32, normal_sign: i32) -> bool {
    &&& axis < 3
    &&& (thickness == i32::MIN || abs_i(thickness as int) < i32::MAX)
    &&& normal_sign > i32::MIN
    &&& i32::MIN <= (shape_layers(thickness) - 1) * shape_dir(thickness, normal_sign) <= i32::MAX
    &&& (prim == ShapePrimitive::Line ==> line_fits(c1, c2, axis))
    &&& (prim != ShapePrimitive::Line ==> ellipse_fits(c1, c2, axis))
    &&& i32::MIN <= c1.spec_comp(axis) + (shape_layers(thickness) - 1) * shape_dir(thickness, normal_sign) <= i32::MAX
}

/// Cell `i` of an extrusion is a cell of the base moved `k * s` along
/// `axis`, for some layer `k` below `t`: the returned pair is `(k, j)`.
proof fn lemma_extrude_cell(cells: Seq<IVec3>, axis: usize, s: int, t: nat, i: int) -> (kj: (int, int))
    requires
        0 <= i < extrude_seq(cells, axis, s, t).len(),
    ensures
        0 <= kj.0 < t,
        0 <= kj.1 < cells.len(),
        extrude_seq(cells, axis, s, t)[i] == cells[kj.1].spec_with(axis, (cells[kj.1].spec_comp(axis) + kj.0 * s) as i32),
    decreases t,
{
    let prev = extrude_seq(cells, axis, s, (t - 1) as nat);
    let last = shifted(cells, axis, (t - 1) * s);
    assert(extrude_seq(cells, axis, s, t) == prev + last);
    if i < prev.len() {
        lemma_extrude_cell(cells, axis, s, (t - 1) as nat, i)
    } else {
        let j = i - prev.len();
        (t - 1, j)
    }
}

/// An extrusion of `t` layers holds `t` copies of `cells`, copy `k` moved
/// `k * s` along `axis`, at `k * n .. (k + 1) * n` for `n` cells.
proof fn lemma_extrude_index(cells: Seq<IVec3>, axis: usize, s: int, t: nat)
    ensures
        extrude_seq(cells, axis, s, t).len() == t * cells.len(),
        forall|k: int, j: int|
            0 <= k < t && 0 <= j < cells.len() ==> #[trigger] extrude_seq(cells, axis, s, t)[k * cells.len() + j]
                == #[trigger] cells[j].spec_with(axis, (cells[j].spec_comp(axis) + k * s) as i32),
    decreases t,
{
    let n = cells.len() as int;
    if t > 0 {
        lemma_extrude_index(cells, axis, s, (t - 1) as nat);
        let prev = extrude_seq(cells, axis, s, (t - 1) as nat);
        let last = shifted(cells, axis, (t - 1) * s);
        let all = extrude_seq(cells, axis, s, t);
        assert(all == prev + last);
        assert((t - 1) * n + n == t * n) by (nonlinear_arith);
        assert forall|k: int, j: int|
            0 <= k < t && 0 <= j < n implies #[trigger] all[k * n + j] == #[trigger] cells[j].spec_with(
                axis,
                (cells[j].spec_comp(axis) + k * s) as i32,
            ) by {
            if k < t - 1 {
                assert(k * n + j < (t - 1) * n) by (nonlinear_arith)
                    requires
                        0 <= k < t - 1,
                        0 <= j < n,
                ;
                assert(0 <= k * n) by (nonlinear_arith)
                    requires
                        0 <= k,
                        0 <= n,
                ;
                assert(all[k * n + j] == prev[k * n + j]);
            } else {
                assert(k * n + j - (t - 1) * n == j);
                assert(all[k * n + j] == last[j]);
            }
        }
    }
}

/// `d` is `k` steps of `step` from `w`, for some `k` in `0..=n`.
pub open spec fn within_steps(d: int, w: int, step: int, n: int) -> bool {
    exists|k: int| 0 <= k <= n && d == #[trigger] steps_from(w, k, step)
}

/// Every cell of `r` lies `k` steps of `step` from depth `w` along `axis`,
/// for some `k` in `0..=n`.
pub open spec fn stacked_from(r: Seq<IVec3>, axis: usize, w: int, step: int, n: int) -> bool {
    forall|i: int| 0 <= i < r.len() ==> within_steps((#[trigger] r[i]).spec_comp(axis) as int, w, step, n)
}

/// Every cell of a shape lies on a layer parallel to the anchor plane, at
/// depth `c1[axis] + k * step` with `0 <= k <= |thickness|`, where `step`
/// is `normal_sign` (zero counting as +1) for a non-negative thickness and
/// its negation for a negative one: the shape grows out along the face
/// normal, or into the surface against it.
pub proof fn law_shape_follows_normal(
    prim: ShapePrimitive,
    c1: IVec3,
    c2: IVec3,
    axis: usize,
    thickness: i32,
    normal_sign: i32,
    base: Seq<IVec3>,
    r: Seq<IVec3>,
)
    requires
        shape_fits(prim, c1, c2, axis, thickness, normal_sign),
        is_shape_base(prim, c1, c2, axis, base),
        r == extrude_seq(base, axis, shape_dir(thickness, normal_sign), shape_layers(thickness) as nat),
    ensures
        stacked_from(
            r,
            axis,
            c1.spec_comp(axis) as int,
            (if normal_sign == 0 { 1 } else { normal_sign as int }) * (if thickness >= 0 { 1int } else { -1int }),
            abs_i(thickness as int),
        ),
        ({
            let w = c1.spec_comp(axis) as int;
            let step = (if normal_sign == 0 { 1 } else { normal_sign as int }) * (if thickness >= 0 { 1int } else { -1int });
            let layers = if thickness == i32::MIN { 1int } else { abs_i(thickness as int) + 1 };
            let n = base.len() as int;
            &&& r.len() == layers * n
            &&& forall|k: int, j: int|
                0 <= k < layers && 0 <= j < n ==> #[trigger] r[k * n + j] == base[j].spec_with(
                    axis,
                    steps_from(w, k, step) as i32,
                )
        }),
{
    let s = shape_dir(thickness, normal_sign);
    let t = shape_layers(thickness);
    let w = c1.spec_comp(axis) as int;
    let step = (if normal_sign == 0 { 1 } else { normal_sign as int }) * (if thickness >= 0 { 1int } else { -1int });
    let ns = if normal_sign == 0 { 1 } else { normal_sign as int };
    if thickness >= 0 {
        assert(ns * 1int == ns);
    } else {
        assert(ns * -1int == -ns) by (nonlinear_arith);
    }
    assert(step == s);
    assert(t - 1 <= abs_i(thickness as int));
    let n = abs_i(thickness as int);
    assert forall|i: int| 0 <= i < r.len() implies within_steps((#[trigger] r[i]).spec_comp(axis) as int, w, step, n) by {
        let (k, j) = lemma_extrude_cell(base, axis, s, t as nat, i);
        let c = base[j];
        if prim == ShapePrimitive::Line {
            assert(c.spec_comp(axis) == w);
        } else {
            assert(shape_member(
                if prim == ShapePrimitive::Rectangle { PlaneKind::Rect } else { PlaneKind::Ellipse },
                c1, c2, axis, true, c));
        }
        assert(c.spec_comp(axis) == w);
        lemma_layer_in_range(w, k, t, s);
        assert(r[i].spec_comp(axis) == w + k * s);
        assert(steps_from(w, k, step) == w + k * s);
    }
    assert(stacked_from(r, axis, w, step, n));
    lemma_extrude_index(base, axis, s, t as nat);
    let layers = if thickness == i32::MIN { 1int } else { abs_i(thickness as int) + 1 };
    assert(layers == t);
    let nb = base.len() as int;
    assert forall|k: int, j: int|
        0 <= k < layers && 0 <= j < nb implies #[trigger] r[k * nb + j] == base[j].spec_with(
            axis,
            steps_from(w, k, step) as i32,
        ) by {
        assert(r[k * nb + j] == base[j].spec_with(axis, (base[j].spec_comp(axis) + k * s) as i32));
        if prim != ShapePrimitive::Line {
            assert(shape_member(
                if prim == ShapePrimitive::Rectangle { PlaneKind::Rect } else { PlaneKind::Ellipse },
                c1, c2, axis, true, base[j]));
        }
        assert(base[j].spec_comp(axis) == w);
    }
}

/// `w` moved `k` steps of `step`.
pub open spec fn steps_from(w: int, k: int, step: int) -> int {
    w + k * step
}

/// Every cell a shape covers: the primitive on the anchor plane, extruded
/// `|thickness| + 1` layers along `axis`, towards the normal for a
/// non-negative thickness and away from it otherwise.
/// (A thickness of magnitude `i32::MAX` overflows the layer count and is
/// left out.)
pub fn compute_shape_cells(
    primitive: ShapePrimitive,
    c1: IVec3,
    c2: IVec3,
    axis: usize,
    thickness: i32,
    normal_sign: i32,
) -> (r: Vec<IVec3>)
    requires
        shape_fits(primitive, c1, c2, axis, thickness, normal_sign),
    ensures
        exists|base: Seq<IVec3>|
            is_shape_base(primitive, c1, c2, axis, base) && r@ == extrude_seq(
                base,
                axis,
                shape_dir(thickness, normal_sign),
                shape_layers(thickness) as nat,
            ),
        stacked_from(
            r@,
            axis,
            c1.spec_comp(axis) as int,
            (if normal_sign == 0 { 1 } else { normal_sign as int }) * (if thickness >= 0 { 1int } else { -1int }),
            abs_i(thickness as int),
        ),
{
    let base = match primitive {
        ShapePrimitive::Rectangle => rect_cells(c1, c2, axis, true),
        ShapePrimitive::Ellipse => ellipse_cells(c1, c2, axis, true),
        ShapePrimitive::Line => line2d_cells(c1, c2, axis),
    };
    let base_sign: i32 = if normal_sign == 0 { 1 } else { normal_sign };
    let count: i32 = if thickness == i32::MIN {
        i32::MIN + 1
    } else if thickness < 0 {
        -thickness + 1
    } else {
        thickness + 1
    };
    let dir_sign: i32 = if thickness >= 0 { base_sign } else { -base_sign };
    proof {
        assert(is_shape_base(primitive, c1, c2, axis, base@));
        assert forall|i: int| 0 <= i < base@.len() implies i32::MIN <= (#[trigger] base@[i]).spec_comp(axis) + (norm_thickness(count) - 1) * dir_sign <= i32::MAX by {
            if primitive == ShapePrimitive::Line {
            } else {
                assert(shape_member(
                    if primitive == ShapePrimitive::Rectangle { PlaneKind::Rect } else { PlaneKind::Ellipse },
                    c1, c2, axis, true, base@[i]));
            }
        }
    }
    let r = extrude(base.as_slice(), axis, count, dir_sign);
    proof {
        assert(norm_thickness(count) == shape_layers(thickness));
        assert(norm_sign(dir_sign) == shape_dir(thickness, normal_sign));
        law_shape_follows_normal(primitive, c1, c2, axis, thickness, normal_sign, base@, r@);
    }
    r
}


/// Width, height and depth of the tightest box around `cells`, in cells;
/// `None` when there are none. Extents that do not fit an `i32` are left out.
pub fn cell_bounds(cells: &[IVec3]) -> (r: Option<IVec3>)
    requires
        forall|i: int, j: int|
            0 <= i < cells@.len() && 0 <= j < cells@.len() ==> {
                &&& (#[trigger] cells@[i]).x - (#[trigger] cells@[j]).x < i32::MAX
                &&& cells@[i].y - cells@[j].y < i32::MAX
                &&& cells@[i].z - cells@[j].z < i32::MAX
            },
    ensures
        r is None <==> cells@.len() == 0,
        r matches Some(e) ==> exists|mn: IVec3, mx: IVec3|
            is_bounding_box(cells@.to_set(), mn, mx) && e == (IVec3 {
                x: (mx.x - mn.x + 1) as i32,
                y: (mx.y - mn.y + 1) as i32,
                z: (mx.z - mn.z + 1) as i32,
            }),
{
    if cells.len() == 0 {
        return None;
    }
    let mut mn = cells[0];
    let mut mx = cells[0];
    let mut i: usize = 1;
    while i < cells.len()
        invariant
            1 <= i <= cells@.len(),
            forall|j: int| 0 <= j < i ==> le3(mn, #[trigger] cells@[j]) && le3(cells@[j], mx),
            exists|j: int| 0 <= j < i && cells@[j].x == mn.x,
            exists|j: int| 0 <= j < i && cells@[j].y == mn.y,
            exists|j: int| 0 <= j < i && cells@[j].z == mn.z,
            exists|j: int| 0 <= j < i && cells@[j].x == mx.x,
            exists|j: int| 0 <= j < i && cells@[j].y == mx.y,
            exists|j: int| 0 <= j < i && cells@[j].z == mx.z,
        decreases cells@.len() - i,
    {
        let p = cells[i];
        mn = mn.min(p);
        mx = mx.max(p);
        i = i + 1;
    }
    let ghost s = cells@.to_set();
    proof {
        assert forall|p: IVec3| #[trigger] s.contains(p) implies le3(mn, p) && le3(p, mx) by {
            let j = choose|j: int| 0 <= j < cells@.len() && cells@[j] == p;
            assert(le3(mn, cells@[j]));
        }
        let j = choose|j: int| 0 <= j < cells@.len() && cells@[j].x == mn.x;
        assert(s.contains(cells@[j]));
        let j = choose|j: int| 0 <= j < cells@.len() && cells@[j].y == mn.y;
        assert(s.contains(cells@[j]));
        let j = choose|j: int| 0 <= j < cells@.len() && cells@[j].z == mn.z;
        assert(s.contains(cells@[j]));
        let ja = choose|j: int| 0 <= j < cells@.len() && cells@[j].x == mx.x;
        assert(s.contains(cells@[ja]));
        let jb = choose|j: int| 0 <= j < cells@.len() && cells@[j].y == mx.y;
        assert(s.contains(cells@[jb]));
        let jc = choose|j: int| 0 <= j < cells@.len() && cells@[j].z == mx.z;
        assert(s.contains(cells@[jc]));
        assert(is_bounding_box(s, mn, mx));
    }
    let e = IVec3::new(mx.x - mn.x + 1, mx.y - mn.y + 1, mx.z - mn.z + 1);
    Some(e)
}

} // verus!
