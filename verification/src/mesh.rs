//! Greedy meshing: the exposed faces of the voxels, merged into same-color
//! rectangles.

use crate::geom::{opt_color_eq, Color8, IVec3};
use crate::gltf::face_normal;
use crate::grid::{map_get, occupied_chunks, spec_chunk_coord, VoxelGrid};
use vstd::prelude::*;

verus! {

// ---------------------------------------------------------------------------
// The six faces
// ---------------------------------------------------------------------------

/// Normal axis of face `f` (faces come in the order +x, -x, +y, -y, +z, -z).
pub open spec fn face_axis(f: int) -> usize {
    if f < 2 { 0 } else if f < 4 { 1 } else { 2 }
}

/// First in-plane axis of face `f`.
pub open spec fn face_u(f: int) -> usize {
    if f < 2 { 1 } else { 0 }
}

/// Second in-plane axis of face `f`.
pub open spec fn face_v(f: int) -> usize {
    if f < 4 { 2 } else { 1 }
}

/// `+1` for the faces looking along their axis, `-1` for the others.
pub open spec fn face_sign(f: int) -> int {
    if f % 2 == 0 { 1 } else { -1 }
}

/// The neighbour of `p` across face `f`.
pub open spec fn across(f: int, p: IVec3) -> IVec3 {
    p.spec_with(face_axis(f), (p.spec_comp(face_axis(f)) + face_sign(f)) as i32)
}

/// Offset of the face plane from the cell's low side along the axis.
pub open spec fn plane_offset(f: int) -> int {
    if f % 2 == 0 { 1 } else { 0 }
}

/// Corner `idx` of a face quad as (high in `u`, high in `v`), in the
/// winding each face uses.
pub open spec fn corner_bits(f: int, idx: int) -> (bool, bool) {
    if f == 0 || f == 3 || f == 4 {
        (idx == 2 || idx == 3, idx == 1 || idx == 2)
    } else {
        (idx == 1 || idx == 2, idx == 2 || idx == 3)
    }
}

fn face_axes(f: usize) -> (r: (usize, usize, usize))
    requires
        f < 6,
    ensures
        r == (face_axis(f as int), face_u(f as int), face_v(f as int)),
{
    if f < 2 {
        (0, 1, 2)
    } else if f < 4 {
        (1, 0, 2)
    } else {
        (2, 0, 1)
    }
}

// ---------------------------------------------------------------------------
// What is drawn
// ---------------------------------------------------------------------------

/// The color drawn for cell `p`: none for the hidden cell, and the recolored
/// cell shows the new RGB over its own alpha.
pub open spec fn drawn(m: Map<IVec3, Color8>, hide: Option<IVec3>, recolor: Option<(IVec3, Color8)>, p: IVec3) -> Option<Color8> {
    if hide == Some(p) {
        None
    } else {
        match map_get(m, p) {
            None => None,
            Some(base) => match recolor {
                Some((cell, c)) => if cell == p {
                    Some([c@[0], c@[1], c@[2], base@[3]])
                } else {
                    Some(base)
                },
                None => Some(base),
            },
        }
    }
}

/// Face `f` of cell `p` is visible: the cell is drawn and its neighbour
/// across the face is not.
pub open spec fn exposed(m: Map<IVec3, Color8>, hide: Option<IVec3>, recolor: Option<(IVec3, Color8)>, f: int, p: IVec3) -> bool {
    drawn(m, hide, recolor, p) is Some && drawn(m, hide, recolor, across(f, p)) is None
}

fn drawn_exec(grid: &VoxelGrid, hide: Option<IVec3>, recolor: Option<(IVec3, Color8)>, p: IVec3) -> (r: Option<Color8>)
    requires
        grid.wf(),
    ensures
        r == drawn(grid@, hide, recolor, p),
{
    if let Some(h) = hide {
        if h == p {
            return None;
        }
    }
    let base = match grid.get(p) {
        Some(b) => b,
        None => {
            return None;
        },
    };
    match recolor {
        Some((cell, c)) => {
            if cell == p {
                Some([c[0], c[1], c[2], base[3]])
            } else {
                Some(base)
            }
        },
        None => Some(base),
    }
}

/// A merged rectangle of visible faces: face `face_idx` of the cells in
/// layer `layer` along the face's axis with `u0 <= u < u1` and
/// `v0 <= v < v1` on its in-plane axes, all drawn in `color`.
#[derive(Clone, Copy, Debug, PartialEq, Eq)]
pub struct GreedyQuad {
    pub face_idx: usize,
    pub layer: i32,
    pub u0: i32,
    pub v0: i32,
    pub u1: i32,
    pub v1: i32,
    pub color: Color8,
}

impl GreedyQuad {
    /// Face `face_idx` of cell `p` is inside the rectangle.
    pub open spec fn covers(self, f: int, p: IVec3) -> bool {
        &&& self.face_idx == f
        &&& p.spec_comp(face_axis(f)) == self.layer
        &&& self.u0 <= p.spec_comp(face_u(f)) < self.u1
        &&& self.v0 <= p.spec_comp(face_v(f)) < self.v1
    }

    /// Corner `idx` of the quad in world cell units.
    pub open spec fn spec_corner(self, idx: int) -> IVec3 {
        let f = self.face_idx as int;
        let (hu, hv) = corner_bits(f, idx);
        let z = IVec3 { x: 0, y: 0, z: 0 };
        z.spec_with(face_axis(f), (self.layer + plane_offset(f)) as i32).spec_with(
            face_u(f),
            if hu { self.u1 } else { self.u0 },
        ).spec_with(face_v(f), if hv { self.v1 } else { self.v0 })
    }

    /// The four corners, wound so the quad faces outwards: the triangles
    /// `(c0, c2, c1)` and `(c0, c3, c2)` are counter-clockwise seen from
    /// outside the face.
    pub fn corners(&self) -> (r: [IVec3; 4])
        requires
            self.face_idx < 6,
            self.layer < i32::MAX,
        ensures
            forall|idx: int| 0 <= idx < 4 ==> r@[idx] == self.spec_corner(idx),
            self.u0 < self.u1 && self.v0 < self.v1 ==> {
                &&& edge_cross(r[0], r[2], r[1]) == scaled(face_normal(self.face_idx as int), self.area())
                &&& edge_cross(r[0], r[3], r[2]) == scaled(face_normal(self.face_idx as int), self.area())
            },
    {
        let f = self.face_idx;
        let (axis, u, v) = face_axes(f);
        let w = if f % 2 == 0 { self.layer + 1 } else { self.layer };
        let z = IVec3::new(0, 0, 0);
        let base = z.with(axis, w);
        let pat_a = f == 0 || f == 3 || f == 4;
        let c0 = base.with(u, self.u0).with(v, self.v0);
        let c2 = base.with(u, self.u1).with(v, self.v1);
        let (c1, c3) = if pat_a {
            (base.with(u, self.u0).with(v, self.v1), base.with(u, self.u1).with(v, self.v0))
        } else {
            (base.with(u, self.u1).with(v, self.v0), base.with(u, self.u0).with(v, self.v1))
        };
        proof {
            if self.u0 < self.u1 && self.v0 < self.v1 {
                law_quad_faces_outward(*self);
            }
        }
        [c0, c1, c2, c3]
    }

    /// Number of cell faces the rectangle spans.
    pub open spec fn area(self) -> int {
        (self.u1 - self.u0) * (self.v1 - self.v0)
    }
}

/// `(p - o) x (q - o)`, in exact integers.
pub open spec fn edge_cross(o: IVec3, p: IVec3, q: IVec3) -> (int, int, int) {
    let (ax, ay, az) = (p.x - o.x, p.y - o.y, p.z - o.z);
    let (bx, by, bz) = (q.x - o.x, q.y - o.y, q.z - o.z);
    (ay * bz - az * by, az * bx - ax * bz, ax * by - ay * bx)
}

/// `n` times `a`, in exact integers.
pub open spec fn scaled(n: IVec3, a: int) -> (int, int, int) {
    (n.x * a, n.y * a, n.z * a)
}

/// The corners of a face quad lie on the cell side the face looks out of
/// (the high side of the layer for a face looking along its axis, the low
/// side otherwise) and are the four corners of the rectangle: `c0` at
/// `(u0, v0)`, `c2` at `(u1, v1)`, and `c1`, `c3` at the two others.
pub proof fn law_quad_corners_on_face(q: GreedyQuad)
    requires
        q.face_idx < 6,
        q.layer < i32::MAX,
    ensures
        forall|idx: int|
            0 <= idx < 4 ==> (#[trigger] q.spec_corner(idx)).spec_comp(face_axis(q.face_idx as int)) == q.layer + if face_normal(
                q.face_idx as int,
            ).spec_comp(face_axis(q.face_idx as int)) > 0 {
                1int
            } else {
                0int
            },
        q.spec_corner(0).spec_comp(face_u(q.face_idx as int)) == q.u0,
        q.spec_corner(0).spec_comp(face_v(q.face_idx as int)) == q.v0,
        q.spec_corner(2).spec_comp(face_u(q.face_idx as int)) == q.u1,
        q.spec_corner(2).spec_comp(face_v(q.face_idx as int)) == q.v1,
        forall|idx: int|
            idx == 1 || idx == 3 ==> {
                ||| (#[trigger] q.spec_corner(idx)).spec_comp(face_u(q.face_idx as int)) == q.u0 && q.spec_corner(idx).spec_comp(face_v(q.face_idx as int)) == q.v1
                ||| q.spec_corner(idx).spec_comp(face_u(q.face_idx as int)) == q.u1 && q.spec_corner(idx).spec_comp(face_v(q.face_idx as int)) == q.v0
            },
        q.spec_corner(1).spec_comp(face_u(q.face_idx as int)) != q.spec_corner(3).spec_comp(face_u(q.face_idx as int))
            || q.u0 == q.u1,
{
    let f = q.face_idx as int;
    assert(f == 0 || f == 1 || f == 2 || f == 3 || f == 4 || f == 5);
}

proof fn lemma_edge_cross(o: IVec3, p: IVec3, q: IVec3, ax: int, ay: int, az: int, bx: int, by: int, bz: int)
    requires
        p.x - o.x == ax,
        p.y - o.y == ay,
        p.z - o.z == az,
        q.x - o.x == bx,
        q.y - o.y == by,
        q.z - o.z == bz,
    ensures
        edge_cross(o, p, q) == (ay * bz - az * by, az * bx - ax * bz, ax * by - ay * bx),
{
}

proof fn lemma_scaled(n: IVec3, a: int, x: int, y: int, z: int)
    requires
        n.x == x,
        n.y == y,
        n.z == z,
    ensures
        scaled(n, a) == (x * a, y * a, z * a),
{
}

/// Every face quad is wound the same way round its outward normal: with
/// corners `c0..c3`, both `(c2 - c0) x (c1 - c0)` and `(c3 - c0) x (c2 - c0)`
/// are the face's outward normal times the quad's area, so the triangles
/// `(c0, c2, c1)` and `(c0, c3, c2)` drawn from them face out of the solid
/// on all six faces.
pub proof fn law_quad_faces_outward(q: GreedyQuad)
    requires
        q.face_idx < 6,
        q.layer < i32::MAX,
        q.u0 < q.u1,
        q.v0 < q.v1,
    ensures
        edge_cross(q.spec_corner(0), q.spec_corner(2), q.spec_corner(1)) == scaled(face_normal(q.face_idx as int), q.area()),
        edge_cross(q.spec_corner(0), q.spec_corner(3), q.spec_corner(2)) == scaled(face_normal(q.face_idx as int), q.area()),
        edge_cross(q.spec_corner(0), q.spec_corner(3), q.spec_corner(1)) == scaled(face_normal(q.face_idx as int), q.area()),
{
    let f = q.face_idx as int;
    let du = q.u1 - q.u0;
    let dv = q.v1 - q.v0;
    let a = q.area();
    assert(a == du * dv);
    assert(du * dv == dv * du) by (nonlinear_arith);
    let (c0, c1, c2, c3) = (q.spec_corner(0), q.spec_corner(1), q.spec_corner(2), q.spec_corner(3));
    let n = face_normal(f);
    if f == 0 {
        assert(corner_bits(f, 0) == (false, false) && corner_bits(f, 1) == (false, true) && corner_bits(f, 2) == (true, true) && corner_bits(f, 3) == (true, false));
        assert(c2.y - c0.y == du && c2.z - c0.z == dv && c2.x == c0.x);
        assert(c1.y == c0.y && c1.z - c0.z == dv && c1.x == c0.x);
        assert(c3.y - c0.y == du && c3.z == c0.z && c3.x == c0.x);
        assert(n == IVec3 { x: 1, y: 0, z: 0 });
        lemma_scaled(n, a, 1, 0, 0);
        lemma_edge_cross(c0, c2, c1, 0, du, dv, 0, 0, dv);
        lemma_edge_cross(c0, c3, c2, 0, du, 0, 0, du, dv);
        lemma_edge_cross(c0, c3, c1, 0, du, 0, 0, 0, dv);
        assert(edge_cross(c0, c2, c1) == scaled(n, a) && edge_cross(c0, c3, c2) == scaled(n, a) && edge_cross(c0, c3, c1) == scaled(n, a));
    } else if f == 1 {
        assert(corner_bits(f, 0) == (false, false) && corner_bits(f, 1) == (true, false) && corner_bits(f, 2) == (true, true) && corner_bits(f, 3) == (false, true));
        assert(c2.y - c0.y == du && c2.z - c0.z == dv && c2.x == c0.x);
        assert(c1.y - c0.y == du && c1.z == c0.z && c1.x == c0.x);
        assert(c3.y == c0.y && c3.z - c0.z == dv && c3.x == c0.x);
        assert(n == IVec3 { x: -1i32, y: 0, z: 0 });
        lemma_scaled(n, a, -1, 0, 0);
        lemma_edge_cross(c0, c2, c1, 0, du, dv, 0, du, 0);
        lemma_edge_cross(c0, c3, c2, 0, 0, dv, 0, du, dv);
        lemma_edge_cross(c0, c3, c1, 0, 0, dv, 0, du, 0);
        assert(edge_cross(c0, c2, c1) == scaled(n, a) && edge_cross(c0, c3, c2) == scaled(n, a) && edge_cross(c0, c3, c1) == scaled(n, a));
    } else if f == 2 {
        assert(corner_bits(f, 0) == (false, false) && corner_bits(f, 1) == (true, false) && corner_bits(f, 2) == (true, true) && corner_bits(f, 3) == (false, true));
        assert(c2.x - c0.x == du && c2.z - c0.z == dv && c2.y == c0.y);
        assert(c1.x - c0.x == du && c1.z == c0.z && c1.y == c0.y);
        assert(c3.x == c0.x && c3.z - c0.z == dv && c3.y == c0.y);
        assert(n == IVec3 { x: 0, y: 1, z: 0 });
        lemma_scaled(n, a, 0, 1, 0);
        lemma_edge_cross(c0, c2, c1, du, 0, dv, du, 0, 0);
        lemma_edge_cross(c0, c3, c2, 0, 0, dv, du, 0, dv);
        lemma_edge_cross(c0, c3, c1, 0, 0, dv, du, 0, 0);
        assert(edge_cross(c0, c2, c1) == scaled(n, a) && edge_cross(c0, c3, c2) == scaled(n, a) && edge_cross(c0, c3, c1) == scaled(n, a));
    } else if f == 3 {
        assert(corner_bits(f, 0) == (false, false) && corner_bits(f, 1) == (false, true) && corner_bits(f, 2) == (true, true) && corner_bits(f, 3) == (true, false));
        assert(c2.x - c0.x == du && c2.z - c0.z == dv && c2.y == c0.y);
        assert(c1.x == c0.x && c1.z - c0.z == dv && c1.y == c0.y);
        assert(c3.x - c0.x == du && c3.z == c0.z && c3.y == c0.y);
        assert(n == IVec3 { x: 0, y: -1i32, z: 0 });
        lemma_scaled(n, a, 0, -1, 0);
        lemma_edge_cross(c0, c2, c1, du, 0, dv, 0, 0, dv);
        lemma_edge_cross(c0, c3, c2, du, 0, 0, du, 0, dv);
        lemma_edge_cross(c0, c3, c1, du, 0, 0, 0, 0, dv);
        assert(edge_cross(c0, c2, c1) == scaled(n, a) && edge_cross(c0, c3, c2) == scaled(n, a) && edge_cross(c0, c3, c1) == scaled(n, a));
    } else if f == 4 {
        assert(corner_bits(f, 0) == (false, false) && corner_bits(f, 1) == (false, true) && corner_bits(f, 2) == (true, true) && corner_bits(f, 3) == (true, false));
        assert(c2.x - c0.x == du && c2.y - c0.y == dv && c2.z == c0.z);
        assert(c1.x == c0.x && c1.y - c0.y == dv && c1.z == c0.z);
        assert(c3.x - c0.x == du && c3.y == c0.y && c3.z == c0.z);
        assert(n == IVec3 { x: 0, y: 0, z: 1 });
        lemma_scaled(n, a, 0, 0, 1);
        lemma_edge_cross(c0, c2, c1, du, dv, 0, 0, dv, 0);
        lemma_edge_cross(c0, c3, c2, du, 0, 0, du, dv, 0);
        lemma_edge_cross(c0, c3, c1, du, 0, 0, 0, dv, 0);
        assert(edge_cross(c0, c2, c1) == scaled(n, a) && edge_cross(c0, c3, c2) == scaled(n, a) && edge_cross(c0, c3, c1) == scaled(n, a));
    } else {
        assert(corner_bits(f, 0) == (false, false) && corner_bits(f, 1) == (true, false) && corner_bits(f, 2) == (true, true) && corner_bits(f, 3) == (false, true));
        assert(c2.x - c0.x == du && c2.y - c0.y == dv && c2.z == c0.z);
        assert(c1.x - c0.x == du && c1.y == c0.y && c1.z == c0.z);
        assert(c3.x == c0.x && c3.y - c0.y == dv && c3.z == c0.z);
        assert(n == IVec3 { x: 0, y: 0, z: -1i32 });
        lemma_scaled(n, a, 0, 0, -1);
        lemma_edge_cross(c0, c2, c1, du, dv, 0, du, 0, 0);
        lemma_edge_cross(c0, c3, c2, 0, dv, 0, du, dv, 0);
        lemma_edge_cross(c0, c3, c1, 0, dv, 0, du, 0, 0);
        assert(edge_cross(c0, c2, c1) == scaled(n, a) && edge_cross(c0, c3, c2) == scaled(n, a) && edge_cross(c0, c3, c1) == scaled(n, a));
    }
}

// ---------------------------------------------------------------------------
// Layer masks
// ---------------------------------------------------------------------------

/// Flat index of slot `(i, j)` of a mask with rows of `dv` slots.
#[verifier::opaque]
pub open spec fn ix(i: int, j: int, dv: int) -> int {
    i * dv + j
}

proof fn lemma_ix(i: int, j: int, du: int, dv: int)
    requires
        0 <= i < du,
        0 <= j < dv,
    ensures
        0 <= ix(i, j, dv) < du * dv,
        ix(i, j, dv) == i * dv + j,
{
    reveal(ix);
    assert(0 <= i * dv + j < du * dv) by (nonlinear_arith)
        requires
            0 <= i < du,
            0 <= j < dv,
    ;
}

proof fn lemma_ix_inj(i: int, j: int, i2: int, j2: int, dv: int)
    requires
        0 <= j < dv,
        0 <= j2 < dv,
        ix(i, j, dv) == ix(i2, j2, dv),
    ensures
        i == i2,
        j == j2,
{
    reveal(ix);
    assert(i == i2) by (nonlinear_arith)
        requires
            0 <= j < dv,
            0 <= j2 < dv,
            i * dv + j == i2 * dv + j2,
    ;
}

proof fn lemma_row_bound(i: int, du: int, dv: int)
    requires
        0 <= i < du,
        0 <= dv,
    ensures
        0 <= ix(i, 0, dv),
        ix(i, 0, dv) + dv <= du * dv,
        forall|j: int| #[trigger] ix(i, j, dv) == ix(i, 0, dv) + j,
{
    reveal(ix);
    assert(0 <= i * dv && i * dv + dv <= du * dv) by (nonlinear_arith)
        requires
            0 <= i < du,
            0 <= dv,
    ;
}

proof fn lemma_ix_next_row(i: int, dv: int)
    ensures
        ix(i + 1, 0, dv) == ix(i, 0, dv) + dv,
        forall|j: int| #[trigger] ix(i, j, dv) == ix(i, 0, dv) + j,
{
    reveal(ix);
    assert((i + 1) * dv == i * dv + dv) by (nonlinear_arith);
}

/// The cell at slot `(i, j)` of layer `k` of face `f`, for a box whose low
/// in-plane corner is `(u_lo, v_lo)`.
pub open spec fn slot_cell(f: int, k: int, u_lo: int, v_lo: int, i: int, j: int) -> IVec3 {
    let z = IVec3 { x: 0, y: 0, z: 0 };
    z.spec_with(face_axis(f), k as i32).spec_with(face_u(f), (u_lo + i) as i32).spec_with(
        face_v(f),
        (v_lo + j) as i32,
    )
}

/// What the mask holds for slot `(i, j)`: the drawn color when that face is
/// visible.
pub open spec fn slot_value(
    m: Map<IVec3, Color8>,
    hide: Option<IVec3>,
    recolor: Option<(IVec3, Color8)>,
    f: int,
    k: int,
    u_lo: int,
    v_lo: int,
    i: int,
    j: int,
) -> Option<Color8> {
    let p = slot_cell(f, k, u_lo, v_lo, i, j);
    if exposed(m, hide, recolor, f, p) {
        drawn(m, hide, recolor, p)
    } else {
        None
    }
}

fn neighbour_across(f: usize, p: IVec3) -> (r: IVec3)
    requires
        f < 6,
        i32::MIN < p.spec_comp(face_axis(f as int)) < i32::MAX,
    ensures
        r == across(f as int, p),
{
    let (axis, _u, _v) = face_axes(f);
    let c = p.comp(axis);
    if f % 2 == 0 {
        p.with(axis, c + 1)
    } else {
        p.with(axis, c - 1)
    }
}

/// The visible faces of layer `k`, slot `(i, j)` at index `ix(i, j, dv)`.
fn fill_mask(
    grid: &VoxelGrid,
    hide: Option<IVec3>,
    recolor: Option<(IVec3, Color8)>,
    f: usize,
    k: i32,
    u_lo: i32,
    v_lo: i32,
    du: usize,
    dv: usize,
) -> (r: Vec<Option<Color8>>)
    requires
        grid.wf(),
        f < 6,
        i32::MIN < k < i32::MAX,
        u_lo + du <= i32::MAX + 1,
        v_lo + dv <= i32::MAX + 1,
        du * dv <= usize::MAX,
    ensures
        r@.len() == du * dv,
        forall|i: int, j: int|
            0 <= i < du && 0 <= j < dv ==> r@[#[trigger] ix(i, j, dv as int)] == slot_value(
                grid@,
                hide,
                recolor,
                f as int,
                k as int,
                u_lo as int,
                v_lo as int,
                i,
                j,
            ),
{
    let (axis, u, v) = face_axes(f);
    let mut out: Vec<Option<Color8>> = Vec::new();
    let mut i: usize = 0;
    proof {
        reveal(ix);
    }
    while i < du
        invariant
            grid.wf(),
            f < 6,
            (axis, u, v) == (face_axis(f as int), face_u(f as int), face_v(f as int)),
            i32::MIN < k < i32::MAX,
            u_lo + du <= i32::MAX + 1,
            v_lo + dv <= i32::MAX + 1,
            du * dv <= usize::MAX,
            i <= du,
            out@.len() == ix(i as int, 0, dv as int),
            forall|ii: int, jj: int|
                0 <= ii < i && 0 <= jj < dv ==> out@[#[trigger] ix(ii, jj, dv as int)] == slot_value(
                    grid@,
                    hide,
                    recolor,
                    f as int,
                    k as int,
                    u_lo as int,
                    v_lo as int,
                    ii,
                    jj,
                ),
        decreases du - i,
    {
        let mut j: usize = 0;
        proof {
            lemma_ix_next_row(i as int, dv as int);
        }
        while j < dv
            invariant
                grid.wf(),
                f < 6,
                (axis, u, v) == (face_axis(f as int), face_u(f as int), face_v(f as int)),
                i32::MIN < k < i32::MAX,
                u_lo + du <= i32::MAX + 1,
                v_lo + dv <= i32::MAX + 1,
                du * dv <= usize::MAX,
                i < du,
                j <= dv,
                out@.len() == ix(i as int, 0, dv as int) + j,
                ix(i as int + 1, 0, dv as int) == ix(i as int, 0, dv as int) + dv,
                forall|jj: int| #[trigger] ix(i as int, jj, dv as int) == ix(i as int, 0, dv as int) + jj,
                forall|ii: int, jj: int|
                    0 <= ii < i && 0 <= jj < dv ==> out@[#[trigger] ix(ii, jj, dv as int)] == slot_value(
                        grid@,
                        hide,
                        recolor,
                        f as int,
                        k as int,
                        u_lo as int,
                        v_lo as int,
                        ii,
                        jj,
                    ),
                forall|jj: int|
                    0 <= jj < j ==> out@[#[trigger] ix(i as int, jj, dv as int)] == slot_value(
                        grid@,
                        hide,
                        recolor,
                        f as int,
                        k as int,
                        u_lo as int,
                        v_lo as int,
                        i as int,
                        jj,
                    ),
            decreases dv - j,
        {
            let z = IVec3::new(0, 0, 0);
            let pu = (u_lo as i64 + i as i64) as i32;
            let pv = (v_lo as i64 + j as i64) as i32;
            let p = z.with(axis, k).with(u, pu).with(v, pv);
            assert(p == slot_cell(f as int, k as int, u_lo as int, v_lo as int, i as int, j as int));
            let c = drawn_exec(grid, hide, recolor, p);
            let val = match c {
                None => None,
                Some(col) => {
                    let n = neighbour_across(f, p);
                    if drawn_exec(grid, hide, recolor, n).is_some() {
                        None
                    } else {
                        Some(col)
                    }
                },
            };
            let ghost before = out@;
            out.push(val);
            proof {
                assert(val == slot_value(grid@, hide, recolor, f as int, k as int, u_lo as int, v_lo as int, i as int, j as int));
                assert(out@[ix(i as int, j as int, dv as int)] == val);
                lemma_ix(i as int, 0, du as int, dv as int);
                assert forall|jj: int| 0 <= jj < j implies out@[#[trigger] ix(i as int, jj, dv as int)] == before[ix(i as int, jj, dv as int)] by {
                }
                assert forall|ii: int, jj: int|
                    0 <= ii < i && 0 <= jj < dv implies out@[#[trigger] ix(ii, jj, dv as int)] == slot_value(
                        grid@,
                        hide,
                        recolor,
                        f as int,
                        k as int,
                        u_lo as int,
                        v_lo as int,
                        ii,
                        jj,
                    ) by {
                    lemma_ix(ii, jj, i as int, dv as int);
                    lemma_ix(i as int, 0, du as int, dv as int);
                    reveal(ix);
                    assert(ix(ii, jj, dv as int) < ix(i as int, 0, dv as int)) by (nonlinear_arith)
                        requires
                            ix(ii, jj, dv as int) == ii * dv + jj,
                            ix(i as int, 0, dv as int) == i * dv + 0,
                            0 <= ii < i,
                            0 <= jj < dv,
                    ;
                }
            }
            j = j + 1;
        }
        i = i + 1;
    }
    proof {
        reveal(ix);
        assert(ix(du as int, 0, dv as int) == du * dv);
    }
    out
}

// ---------------------------------------------------------------------------
// Merging a layer
// ---------------------------------------------------------------------------

/// Quad `q` covers slot `(i, j)` of a layer whose slot `(0, 0)` sits at
/// in-plane coordinates `(u_lo, v_lo)`.
pub open spec fn covers_slot(q: GreedyQuad, u_lo: int, v_lo: int, i: int, j: int) -> bool {
    q.u0 <= u_lo + i < q.u1 && q.v0 <= v_lo + j < q.v1
}

/// `q` is a quad of layer `k` of face `f` inside the `du` x `dv` slots, and
/// every slot it covers holds its color in `m0`.
pub open spec fn quad_in_layer(
    q: GreedyQuad,
    f: int,
    k: int,
    u_lo: int,
    v_lo: int,
    du: int,
    dv: int,
    m0: Seq<Option<Color8>>,
) -> bool {
    &&& q.face_idx == f
    &&& q.layer == k
    &&& u_lo <= q.u0 < q.u1 <= u_lo + du
    &&& v_lo <= q.v0 < q.v1 <= v_lo + dv
    &&& forall|i: int, j: int|
        0 <= i < du && 0 <= j < dv && #[trigger] covers_slot(q, u_lo, v_lo, i, j) ==> m0[ix(i, j, dv)] == Some(q.color)
}

/// Slot `(i, j)` cannot join a rectangle of color `c`: the mask does not
/// hold `c` there, or one of the rectangles `qs` already covers it.
pub open spec fn slot_blocked(
    m0: Seq<Option<Color8>>,
    qs: Seq<GreedyQuad>,
    u_lo: int,
    v_lo: int,
    dv: int,
    c: Color8,
    i: int,
    j: int,
) -> bool {
    m0[ix(i, j, dv)] != Some(c) || exists|t: int| 0 <= t < qs.len() && #[trigger] covers_slot(qs[t], u_lo, v_lo, i, j)
}

/// Rectangle `q`, made after the rectangles `qs`, cannot grow: one column
/// further along its first row, and one row further below it, reach the
/// edge of the layer or a blocked slot.
pub open spec fn maximal_in_layer(
    q: GreedyQuad,
    qs: Seq<GreedyQuad>,
    u_lo: int,
    v_lo: int,
    du: int,
    dv: int,
    m0: Seq<Option<Color8>>,
) -> bool {
    let i = q.u0 - u_lo;
    let j = q.v0 - v_lo;
    &&& (q.v1 - v_lo == dv || slot_blocked(m0, qs, u_lo, v_lo, dv, q.color, i, q.v1 - v_lo))
    &&& (q.u1 - u_lo == du || exists|jj: int|
        j <= jj < q.v1 - v_lo && #[trigger] slot_blocked(m0, qs, u_lo, v_lo, dv, q.color, q.u1 - u_lo, jj))
}

/// Rectangle `q`, made after the rectangles `qs`, starts at the first slot
/// in row-major order that holds a color and that no rectangle of `qs`
/// covers.
pub open spec fn first_in_layer(
    q: GreedyQuad,
    qs: Seq<GreedyQuad>,
    u_lo: int,
    v_lo: int,
    du: int,
    dv: int,
    m0: Seq<Option<Color8>>,
) -> bool {
    let i = q.u0 - u_lo;
    let j = q.v0 - v_lo;
    forall|ii: int, jj: int|
        0 <= ii < du && 0 <= jj < dv && (ii < i || (ii == i && jj < j)) && (#[trigger] m0[ix(ii, jj, dv)]) is Some
            ==> exists|t: int| 0 <= t < qs.len() && #[trigger] covers_slot(qs[t], u_lo, v_lo, ii, jj)
}

/// Length of the run of `key` in row `i` starting at column `j`.
fn run_width(mask: &Vec<Option<Color8>>, du: usize, dv: usize, i: usize, j: usize, key: Color8) -> (w: usize)
    requires
        du * dv <= usize::MAX,
        mask@.len() == du * dv,
        i < du,
        j < dv,
        mask@[ix(i as int, j as int, dv as int)] == Some(key),
    ensures
        1 <= w,
        j + w <= dv,
        forall|dj: int| 0 <= dj < w ==> mask@[#[trigger] ix(i as int, j + dj, dv as int)] == Some(key),
        j + w == dv || mask@[ix(i as int, j + w, dv as int)] != Some(key),
{
    proof {
        lemma_ix(i as int, j as int, du as int, dv as int);
        lemma_row_bound(i as int, du as int, dv as int);
    }
    let row = i * dv;
    let mut w: usize = 1;
    while j + w < dv
        invariant
            du * dv <= usize::MAX,
            mask@.len() == du * dv,
            i < du,
            row == ix(i as int, 0, dv as int),
            forall|jj: int| #[trigger] ix(i as int, jj, dv as int) == ix(i as int, 0, dv as int) + jj,
            0 <= ix(i as int, 0, dv as int),
            ix(i as int, 0, dv as int) + dv <= du * dv,
            1 <= w,
            j + w <= dv,
            forall|dj: int| 0 <= dj < w ==> mask@[#[trigger] ix(i as int, j + dj, dv as int)] == Some(key),
        ensures
            1 <= w,
            j + w <= dv,
            forall|dj: int| 0 <= dj < w ==> mask@[#[trigger] ix(i as int, j + dj, dv as int)] == Some(key),
            j + w == dv || mask@[ix(i as int, j + w, dv as int)] != Some(key),
        decreases dv - j - w,
    {
        if !opt_color_eq(&mask[row + j + w], &Some(key)) {
            assert(row + j + w == ix(i as int, j + w, dv as int));
            break;
        }
        assert(mask@[ix(i as int, j + w, dv as int)] == Some(key));
        w = w + 1;
    }
    w
}

/// How many rows from row `i` down hold `key` in all of columns `j..j + w`.
fn run_height(mask: &Vec<Option<Color8>>, du: usize, dv: usize, i: usize, j: usize, w: usize, key: Color8) -> (h: usize)
    requires
        du * dv <= usize::MAX,
        mask@.len() == du * dv,
        i < du,
        1 <= w,
        j + w <= dv,
        forall|dj: int| 0 <= dj < w ==> mask@[#[trigger] ix(i as int, j + dj, dv as int)] == Some(key),
    ensures
        1 <= h,
        i + h <= du,
        forall|di: int, dj: int|
            0 <= di < h && 0 <= dj < w ==> mask@[#[trigger] ix(i + di, j + dj, dv as int)] == Some(key),
        i + h == du || exists|dj: int| 0 <= dj < w && mask@[#[trigger] ix(i + h, j + dj, dv as int)] != Some(key),
{
    let mut h: usize = 1;
    while i + h < du
        invariant
            du * dv <= usize::MAX,
            mask@.len() == du * dv,
            i < du,
            1 <= w,
            j + w <= dv,
            1 <= h,
            i + h <= du,
            forall|di: int, dj: int|
                0 <= di < h && 0 <= dj < w ==> mask@[#[trigger] ix(i + di, j + dj, dv as int)] == Some(key),
        ensures
            1 <= h,
            i + h <= du,
            forall|di: int, dj: int|
                0 <= di < h && 0 <= dj < w ==> mask@[#[trigger] ix(i + di, j + dj, dv as int)] == Some(key),
            i + h == du || exists|dj: int| 0 <= dj < w && mask@[#[trigger] ix(i + h, j + dj, dv as int)] != Some(key),
        decreases du - i - h,
    {
        proof {
            lemma_row_bound((i + h) as int, du as int, dv as int);
            reveal(ix);
        }
        let row = (i + h) * dv;
        let mut dj: usize = 0;
        let mut ok = true;
        while dj < w
            invariant_except_break
                ok,
            invariant
                du * dv <= usize::MAX,
                mask@.len() == du * dv,
                i + h < du,
                j + w <= dv,
                row == ix(i + h, 0, dv as int),
                forall|jj: int| #[trigger] ix(i + h, jj, dv as int) == ix(i + h, 0, dv as int) + jj,
                0 <= ix(i + h, 0, dv as int),
                ix(i + h, 0, dv as int) + dv <= du * dv,
                dj <= w,
                ok ==> forall|d: int| 0 <= d < dj ==> mask@[#[trigger] ix(i + h, j + d, dv as int)] == Some(key),
            ensures
                ok ==> dj == w && forall|d: int| 0 <= d < w ==> mask@[#[trigger] ix(i + h, j + d, dv as int)] == Some(key),
                !ok ==> dj < w && mask@[ix(i + h, j + dj, dv as int)] != Some(key),
            decreases w - dj,
        {
            assert(row + j + dj == ix(i + h, j + dj, dv as int));
            if !opt_color_eq(&mask[row + j + dj], &Some(key)) {
                ok = false;
                break;
            }
            assert(mask@[ix(i + h, j + dj, dv as int)] == Some(key));
            dj = dj + 1;
        }
        if !ok {
            assert(0 <= dj < w && mask@[ix(i + h, j + dj, dv as int)] != Some(key));
            break;
        }
        proof {
            assert forall|di: int, d: int| 0 <= di < h + 1 && 0 <= d < w implies mask@[#[trigger] ix(i + di, j + d, dv as int)] == Some(key) by {
                if di == h {
                    assert(mask@[ix(i + h, j + d, dv as int)] == Some(key));
                }
            }
        }
        h = h + 1;
    }
    h
}

/// Empties the `h` x `w` block of slots whose top-left slot is `(i, j)`.
fn clear_block(mask: &mut Vec<Option<Color8>>, du: usize, dv: usize, i: usize, j: usize, h: usize, w: usize)
    requires
        du * dv <= usize::MAX,
        1 <= w,
        old(mask)@.len() == du * dv,
        i + h <= du,
        j + w <= dv,
    ensures
        final(mask)@.len() == du * dv,
        forall|ii: int, jj: int|
            0 <= ii < du && 0 <= jj < dv ==> final(mask)@[#[trigger] ix(ii, jj, dv as int)] == if i <= ii < i + h && j
                <= jj < j + w {
                None
            } else {
                old(mask)@[ix(ii, jj, dv as int)]
            },
{
    let ghost mb = mask@;
    let mut di: usize = 0;
    while di < h
        invariant
            du * dv <= usize::MAX,
            mask@.len() == du * dv,
            i + h <= du,
            j + w <= dv,
            1 <= w,
            di <= h,
            forall|ii: int, jj: int|
                0 <= ii < du && 0 <= jj < dv ==> mask@[#[trigger] ix(ii, jj, dv as int)] == if i <= ii < i + di && j
                    <= jj < j + w {
                    None
                } else {
                    mb[ix(ii, jj, dv as int)]
                },
        decreases h - di,
    {
        proof {
            lemma_row_bound((i + di) as int, du as int, dv as int);
            reveal(ix);
        }
        let row = (i + di) * dv;
        let mut dj: usize = 0;
        while dj < w
            invariant
                du * dv <= usize::MAX,
                mask@.len() == du * dv,
                i + di < du,
                j + w <= dv,
                dj <= w,
                row == ix(i + di, 0, dv as int),
                forall|jj: int| #[trigger] ix(i + di, jj, dv as int) == ix(i + di, 0, dv as int) + jj,
                0 <= ix(i + di, 0, dv as int),
                ix(i + di, 0, dv as int) + dv <= du * dv,
                forall|ii: int, jj: int|
                    0 <= ii < du && 0 <= jj < dv ==> mask@[#[trigger] ix(ii, jj, dv as int)] == if (i <= ii < i + di && j
                        <= jj < j + w) || (ii == i + di && j <= jj < j + dj) {
                        None
                    } else {
                        mb[ix(ii, jj, dv as int)]
                    },
            decreases w - dj,
        {
            let ghost before = mask@;
            assert(row + j + dj == ix(i + di, j + dj, dv as int));
            let t = row + j + dj;
            mask.set(t, None);
            proof {
                assert forall|ii: int, jj: int|
                    0 <= ii < du && 0 <= jj < dv implies mask@[#[trigger] ix(ii, jj, dv as int)] == if (i <= ii < i + di
                        && j <= jj < j + w) || (ii == i + di && j <= jj < j + dj + 1) {
                        None
                    } else {
                        mb[ix(ii, jj, dv as int)]
                    } by {
                    lemma_ix(ii, jj, du as int, dv as int);
                    if ix(ii, jj, dv as int) == t {
                        assert(t == ix(i + di, j + dj, dv as int));
                        lemma_ix_inj(ii, jj, (i + di) as int, (j + dj) as int, dv as int);
                    }
                }
            }
            dj = dj + 1;
        }
        di = di + 1;
    }
}

/// Covers the filled slots of a layer mask with same-color rectangles,
/// greedily: row by row, each rectangle as wide as its run of equal color,
/// then as tall as whole rows of that run allow. The quads are appended to
/// `out`; the mask ends empty.
fn sweep_layer(
    mask: &mut Vec<Option<Color8>>,
    du: usize,
    dv: usize,
    f: usize,
    k: i32,
    u_lo: i32,
    v_lo: i32,
    out: &mut Vec<GreedyQuad>,
)
    requires
        du * dv <= usize::MAX,
        old(mask)@.len() == du * dv,
        f < 6,
        u_lo + du <= i32::MAX,
        v_lo + dv <= i32::MAX,
    ensures
        ({
            let m0 = old(mask)@;
            let n0 = old(out)@.len();
            let q = final(out)@;
            &&& q.len() >= n0
            &&& q.subrange(0, n0 as int) == old(out)@
            &&& forall|t: int|
                n0 <= t < q.len() ==> quad_in_layer(#[trigger] q[t], f as int, k as int, u_lo as int, v_lo as int, du as int, dv as int, m0)
            &&& forall|i: int, j: int|
                0 <= i < du && 0 <= j < dv && (#[trigger] m0[ix(i, j, dv as int)]) is Some ==> exists|t: int|
                    n0 <= t < q.len() && covers_slot(#[trigger] q[t], u_lo as int, v_lo as int, i, j)
            &&& forall|t1: int, t2: int, i: int, j: int|
                n0 <= t1 < t2 < q.len() && 0 <= i < du && 0 <= j < dv ==> !(#[trigger] covers_slot(q[t1], u_lo as int, v_lo as int, i, j) && #[trigger] covers_slot(q[t2], u_lo as int, v_lo as int, i, j))
            &&& forall|t: int|
                n0 <= t < q.len() ==> maximal_in_layer(#[trigger] q[t], q.subrange(n0 as int, t), u_lo as int, v_lo as int, du as int, dv as int, m0)
            &&& forall|t: int|
                n0 <= t < q.len() ==> first_in_layer(#[trigger] q[t], q.subrange(n0 as int, t), u_lo as int, v_lo as int, du as int, dv as int, m0)
        }),
{
    let ghost m0 = mask@;
    let ghost n0 = out@.len();
    let ghost o0 = out@;
    let ghost mut owner: Map<int, int> = Map::empty();
    let mut i: usize = 0;
    while i < du
        invariant
            du * dv <= usize::MAX,
            mask@.len() == du * dv,
            f < 6,
            u_lo + du <= i32::MAX,
            v_lo + dv <= i32::MAX,
            i <= du,
            out@.len() >= n0,
            out@.subrange(0, n0 as int) == o0,
            forall|ii: int, jj: int|
                0 <= ii < du && 0 <= jj < dv && (#[trigger] mask@[ix(ii, jj, dv as int)]) is Some ==> mask@[ix(ii, jj, dv as int)] == m0[ix(ii, jj, dv as int)],
            forall|ii: int, jj: int| 0 <= ii < i && 0 <= jj < dv ==> (#[trigger] mask@[ix(ii, jj, dv as int)]) is None,
            forall|t: int|
                n0 <= t < out@.len() ==> quad_in_layer(#[trigger] out@[t], f as int, k as int, u_lo as int, v_lo as int, du as int, dv as int, m0),
            forall|t: int, ii: int, jj: int|
                n0 <= t < out@.len() && 0 <= ii < du && 0 <= jj < dv && covers_slot(#[trigger] out@[t], u_lo as int, v_lo as int, ii, jj)
                    ==> (#[trigger] mask@[ix(ii, jj, dv as int)]) is None,
            forall|ii: int, jj: int|
                0 <= ii < du && 0 <= jj < dv && (#[trigger] m0[ix(ii, jj, dv as int)]) is Some && mask@[ix(ii, jj, dv as int)] is None
                    ==> owner.contains_key(ix(ii, jj, dv as int)) && n0 <= owner[ix(ii, jj, dv as int)] < out@.len()
                    && covers_slot(out@[owner[ix(ii, jj, dv as int)]], u_lo as int, v_lo as int, ii, jj),
            forall|t1: int, t2: int, ii: int, jj: int|
                n0 <= t1 < t2 < out@.len() && 0 <= ii < du && 0 <= jj < dv ==> !(#[trigger] covers_slot(out@[t1], u_lo as int, v_lo as int, ii, jj) && #[trigger] covers_slot(out@[t2], u_lo as int, v_lo as int, ii, jj)),
            forall|t: int|
                n0 <= t < out@.len() ==> maximal_in_layer(#[trigger] out@[t], out@.subrange(n0 as int, t), u_lo as int, v_lo as int, du as int, dv as int, m0),
            forall|t: int|
                n0 <= t < out@.len() ==> first_in_layer(#[trigger] out@[t], out@.subrange(n0 as int, t), u_lo as int, v_lo as int, du as int, dv as int, m0),
        decreases du - i,
    {
        let mut j: usize = 0;
        while j < dv
            invariant
                du * dv <= usize::MAX,
                mask@.len() == du * dv,
                f < 6,
                u_lo + du <= i32::MAX,
                v_lo + dv <= i32::MAX,
                i < du,
                j <= dv,
                out@.len() >= n0,
                out@.subrange(0, n0 as int) == o0,
                forall|ii: int, jj: int|
                    0 <= ii < du && 0 <= jj < dv && (#[trigger] mask@[ix(ii, jj, dv as int)]) is Some ==> mask@[ix(ii, jj, dv as int)] == m0[ix(ii, jj, dv as int)],
                forall|ii: int, jj: int|
                    0 <= ii < du && 0 <= jj < dv && (ii < i || (ii == i && jj < j)) ==> (#[trigger] mask@[ix(ii, jj, dv as int)]) is None,
                forall|t: int|
                    n0 <= t < out@.len() ==> quad_in_layer(#[trigger] out@[t], f as int, k as int, u_lo as int, v_lo as int, du as int, dv as int, m0),
                forall|t: int, ii: int, jj: int|
                    n0 <= t < out@.len() && 0 <= ii < du && 0 <= jj < dv && covers_slot(#[trigger] out@[t], u_lo as int, v_lo as int, ii, jj)
                        ==> (#[trigger] mask@[ix(ii, jj, dv as int)]) is None,
                forall|ii: int, jj: int|
                    0 <= ii < du && 0 <= jj < dv && (#[trigger] m0[ix(ii, jj, dv as int)]) is Some && mask@[ix(ii, jj, dv as int)] is None
                        ==> owner.contains_key(ix(ii, jj, dv as int)) && n0 <= owner[ix(ii, jj, dv as int)] < out@.len()
                        && covers_slot(out@[owner[ix(ii, jj, dv as int)]], u_lo as int, v_lo as int, ii, jj),
                forall|t1: int, t2: int, ii: int, jj: int|
                    n0 <= t1 < t2 < out@.len() && 0 <= ii < du && 0 <= jj < dv ==> !(#[trigger] covers_slot(out@[t1], u_lo as int, v_lo as int, ii, jj) && #[trigger] covers_slot(out@[t2], u_lo as int, v_lo as int, ii, jj)),
                forall|t: int|
                    n0 <= t < out@.len() ==> maximal_in_layer(#[trigger] out@[t], out@.subrange(n0 as int, t), u_lo as int, v_lo as int, du as int, dv as int, m0),
            forall|t: int|
                n0 <= t < out@.len() ==> first_in_layer(#[trigger] out@[t], out@.subrange(n0 as int, t), u_lo as int, v_lo as int, du as int, dv as int, m0),
            decreases dv - j,
        {
            proof {
                lemma_ix(i as int, j as int, du as int, dv as int);
                lemma_row_bound(i as int, du as int, dv as int);
                reveal(ix);
            }
            let slot = mask[i * dv + j];
            match slot {
                None => {
                    j = j + 1;
                },
                Some(key) => {
                    let w = run_width(mask, du, dv, i, j, key);
                    let h = run_height(mask, du, dv, i, j, w, key);
                    let ghost mb = mask@;
                    clear_block(mask, du, dv, i, j, h, w);
                    let q = GreedyQuad {
                        face_idx: f,
                        layer: k,
                        u0: (u_lo as i64 + i as i64) as i32,
                        v0: (v_lo as i64 + j as i64) as i32,
                        u1: (u_lo as i64 + (i + h) as i64) as i32,
                        v1: (v_lo as i64 + (j + w) as i64) as i32,
                        color: key,
                    };
                    let ghost ob = out@;
                    out.push(q);
                    proof {
                        let t_new = ob.len() as int;
                        assert(out@[t_new] == q);
                        assert forall|ii: int, jj: int|
                            0 <= ii < du && 0 <= jj < dv implies #[trigger] covers_slot(q, u_lo as int, v_lo as int, ii, jj)
                                == (i <= ii < i + h && j <= jj < j + w) by {
                        }
                        assert(out@.subrange(0, n0 as int) =~= o0) by {
                            assert(ob.subrange(0, n0 as int) == o0);
                        }
                        assert forall|t: int| n0 <= t < out@.len() implies quad_in_layer(#[trigger] out@[t], f as int, k as int, u_lo as int, v_lo as int, du as int, dv as int, m0) by {
                            if t < t_new {
                                assert(out@[t] == ob[t]);
                            } else {
                                assert forall|ii: int, jj: int|
                                    0 <= ii < du && 0 <= jj < dv && #[trigger] covers_slot(q, u_lo as int, v_lo as int, ii, jj) implies m0[ix(ii, jj, dv as int)] == Some(q.color) by {
                                    assert(mb[ix(i + (ii - i), j + (jj - j), dv as int)] == Some(key));
                                }
                            }
                        }
                        assert forall|t: int, ii: int, jj: int|
                            n0 <= t < out@.len() && 0 <= ii < du && 0 <= jj < dv && covers_slot(#[trigger] out@[t], u_lo as int, v_lo as int, ii, jj)
                                implies (#[trigger] mask@[ix(ii, jj, dv as int)]) is None by {
                            if t < t_new {
                                assert(out@[t] == ob[t]);
                                assert(mb[ix(ii, jj, dv as int)] is None);
                            }
                        }
                        assert forall|t1: int, t2: int, ii: int, jj: int|
                            n0 <= t1 < t2 < out@.len() && 0 <= ii < du && 0 <= jj < dv implies !(#[trigger] covers_slot(out@[t1], u_lo as int, v_lo as int, ii, jj) && #[trigger] covers_slot(out@[t2], u_lo as int, v_lo as int, ii, jj)) by {
                            assert(out@[t1] == ob[t1]);
                            if t2 < t_new {
                                assert(out@[t2] == ob[t2]);
                            } else if covers_slot(out@[t1], u_lo as int, v_lo as int, ii, jj) && covers_slot(out@[t2], u_lo as int, v_lo as int, ii, jj) {
                                assert(mb[ix(ii, jj, dv as int)] is None);
                                assert(mb[ix(i + (ii - i), j + (jj - j), dv as int)] == Some(key));
                            }
                        }
                        let old_owner = owner;
                        let in_new = |x: int| exists|ii: int, jj: int| i <= ii < i + h && j <= jj < j + w && x == #[trigger] ix(ii, jj, dv as int);
                        owner = Map::new(
                            |x: int| old_owner.contains_key(x) || in_new(x),
                            |x: int| if in_new(x) { t_new } else { old_owner[x] },
                        );
                        assert forall|ii: int, jj: int|
                            0 <= ii < du && 0 <= jj < dv && (#[trigger] m0[ix(ii, jj, dv as int)]) is Some && mask@[ix(ii, jj, dv as int)] is None
                                implies owner.contains_key(ix(ii, jj, dv as int)) && n0 <= owner[ix(ii, jj, dv as int)] < out@.len()
                                && covers_slot(out@[owner[ix(ii, jj, dv as int)]], u_lo as int, v_lo as int, ii, jj) by {
                            let x = ix(ii, jj, dv as int);
                            if i <= ii < i + h && j <= jj < j + w {
                                assert(in_new(x));
                            } else {
                                if in_new(x) {
                                    let (a, b) = choose|a: int, b: int| i <= a < i + h && j <= b < j + w && x == #[trigger] ix(a, b, dv as int);
                                    lemma_ix_inj(ii, jj, a, b, dv as int);
                                }
                                assert(mask@[x] == mb[x]);
                                assert(n0 <= old_owner[x] < ob.len());
                                assert(out@[old_owner[x]] == ob[old_owner[x]]);
                            }
                        }
                        assert forall|ii: int, jj: int|
                            0 <= ii < du && 0 <= jj < dv && (ii < i || (ii == i && jj < j + w)) implies (#[trigger] mask@[ix(ii, jj, dv as int)]) is None by {
                            if !(i <= ii < i + h && j <= jj < j + w) {
                                assert(mask@[ix(ii, jj, dv as int)] == mb[ix(ii, jj, dv as int)]);
                            }
                        }
                        let prev = ob.subrange(n0 as int, t_new);
                        assert(out@.subrange(n0 as int, t_new) =~= prev);
                        assert forall|ii: int, jj: int|
                            0 <= ii < du && 0 <= jj < dv && mb[ix(ii, jj, dv as int)] != Some(key) implies slot_blocked(m0, prev, u_lo as int, v_lo as int, dv as int, key, ii, jj) by {
                            let x = ix(ii, jj, dv as int);
                            if m0[x] == Some(key) {
                                assert(mb[x] is None);
                                let o = old_owner[x];
                                assert(covers_slot(ob[o], u_lo as int, v_lo as int, ii, jj));
                                assert(prev[o - n0] == ob[o]);
                                assert(covers_slot(prev[o - n0], u_lo as int, v_lo as int, ii, jj));
                            }
                        }
                        assert(maximal_in_layer(q, prev, u_lo as int, v_lo as int, du as int, dv as int, m0)) by {
                            if i + h < du {
                                let dj = choose|dj: int| 0 <= dj < w && mb[#[trigger] ix(i + h, j + dj, dv as int)] != Some(key);
                                assert(slot_blocked(m0, prev, u_lo as int, v_lo as int, dv as int, key, (i + h) as int, j + dj));
                            }
                        }
                        assert forall|t: int|
                            n0 <= t < out@.len() implies maximal_in_layer(#[trigger] out@[t], out@.subrange(n0 as int, t), u_lo as int, v_lo as int, du as int, dv as int, m0) by {
                            if t < t_new {
                                assert(out@[t] == ob[t]);
                                assert(out@.subrange(n0 as int, t) =~= ob.subrange(n0 as int, t));
                            }
                        }
                        assert(first_in_layer(q, prev, u_lo as int, v_lo as int, du as int, dv as int, m0)) by {
                            assert forall|ii: int, jj: int|
                                0 <= ii < du && 0 <= jj < dv && (ii < i || (ii == i && jj < j)) && (#[trigger] m0[ix(ii, jj, dv as int)]) is Some
                                    implies exists|t: int| 0 <= t < prev.len() && #[trigger] covers_slot(prev[t], u_lo as int, v_lo as int, ii, jj) by {
                                let x = ix(ii, jj, dv as int);
                                assert(mb[x] is None);
                                let o = old_owner[x];
                                assert(covers_slot(ob[o], u_lo as int, v_lo as int, ii, jj));
                                assert(prev[o - n0] == ob[o]);
                            }
                        }
                        assert forall|t: int|
                            n0 <= t < out@.len() implies first_in_layer(#[trigger] out@[t], out@.subrange(n0 as int, t), u_lo as int, v_lo as int, du as int, dv as int, m0) by {
                            if t < t_new {
                                assert(out@[t] == ob[t]);
                                assert(out@.subrange(n0 as int, t) =~= ob.subrange(n0 as int, t));
                            }
                        }
                    }
                    j = j + w;
                },
            }
        }
        i = i + 1;
    }
    proof {
        assert forall|ii: int, jj: int|
            0 <= ii < du && 0 <= jj < dv && (#[trigger] m0[ix(ii, jj, dv as int)]) is Some implies exists|t: int|
                n0 <= t < out@.len() && covers_slot(#[trigger] out@[t], u_lo as int, v_lo as int, ii, jj) by {
            assert(mask@[ix(ii, jj, dv as int)] is None);
            let t = owner[ix(ii, jj, dv as int)];
            assert(covers_slot(out@[t], u_lo as int, v_lo as int, ii, jj));
        }
    }
}

// ---------------------------------------------------------------------------
// Meshing a box
// ---------------------------------------------------------------------------

/// `p` lies in the half-open box `[min, max)`.
pub open spec fn in_box(p: IVec3, min: IVec3, max: IVec3) -> bool {
    &&& min.x <= p.x < max.x
    &&& min.y <= p.y < max.y
    &&& min.z <= p.z < max.z
}

/// The box's extents and slot counts stay in range.
pub open spec fn box_fits(min: IVec3, max: IVec3) -> bool {
    &&& i32::MIN < min.x && i32::MIN < min.y && i32::MIN < min.z
    &&& i32::MIN <= max.x - min.x <= i32::MAX
    &&& i32::MIN <= max.y - min.y <= i32::MAX
    &&& i32::MIN <= max.z - min.z <= i32::MAX
    &&& (max.x - min.x) * (max.y - min.y) <= usize::MAX
    &&& (max.x - min.x) * (max.z - min.z) <= usize::MAX
    &&& (max.y - min.y) * (max.z - min.z) <= usize::MAX
}

/// The cell whose face `f` lies in layer `k` at in-plane coordinates
/// `(u, v)`.
pub open spec fn face_cell(f: int, k: int, u: int, v: int) -> IVec3 {
    slot_cell(f, k, 0, 0, u, v)
}

/// Face `f` of cell `p` cannot join a quad of color `c`: the cell is
/// outside the box, the face is hidden or drawn in another color, or one of
/// the quads `qs` already covers it.
pub open spec fn face_blocked(
    m: Map<IVec3, Color8>,
    hide: Option<IVec3>,
    recolor: Option<(IVec3, Color8)>,
    min: IVec3,
    max: IVec3,
    qs: Seq<GreedyQuad>,
    f: int,
    c: Color8,
    p: IVec3,
) -> bool {
    ||| !in_box(p, min, max)
    ||| !exposed(m, hide, recolor, f, p)
    ||| drawn(m, hide, recolor, p) != Some(c)
    ||| exists|t: int| 0 <= t < qs.len() && #[trigger] qs[t].covers(f, p)
}

/// Quad `q`, made after the quads `qs`, cannot grow: the face one step
/// further along its first row, and some face of the row just past it, are
/// blocked. Greedy meshing merges each run as far as it goes.
pub open spec fn quad_maximal(
    q: GreedyQuad,
    qs: Seq<GreedyQuad>,
    m: Map<IVec3, Color8>,
    hide: Option<IVec3>,
    recolor: Option<(IVec3, Color8)>,
    min: IVec3,
    max: IVec3,
) -> bool {
    let f = q.face_idx as int;
    &&& face_blocked(m, hide, recolor, min, max, qs, f, q.color, face_cell(f, q.layer as int, q.u0 as int, q.v1 as int))
    &&& exists|v: int|
        q.v0 <= v < q.v1 && #[trigger] face_blocked(m, hide, recolor, min, max, qs, f, q.color, face_cell(f, q.layer as int, q.u1 as int, v))
}

/// Face `f` of cell `p` comes before quad `q`'s first face in the scan of
/// `q`'s layer: an earlier row along the first in-plane axis, or the same row
/// and an earlier column.
pub open spec fn scan_before(q: GreedyQuad, p: IVec3) -> bool {
    let f = q.face_idx as int;
    ||| p.spec_comp(face_u(f)) < q.u0
    ||| p.spec_comp(face_u(f)) == q.u0 && p.spec_comp(face_v(f)) < q.v0
}

/// Quad `q`, made after the quads `qs`, starts at the first visible face of
/// its layer in the box, in scan order, that none of `qs` covers.
pub open spec fn quad_first(
    q: GreedyQuad,
    qs: Seq<GreedyQuad>,
    m: Map<IVec3, Color8>,
    hide: Option<IVec3>,
    recolor: Option<(IVec3, Color8)>,
    min: IVec3,
    max: IVec3,
) -> bool {
    let f = q.face_idx as int;
    forall|p: IVec3|
        in_box(p, min, max) && p.spec_comp(face_axis(f)) == q.layer && scan_before(q, p) && #[trigger] exposed(
            m,
            hide,
            recolor,
            f,
            p,
        ) ==> exists|t: int| 0 <= t < qs.len() && #[trigger] qs[t].covers(f, p)
}

/// Quads come face by face (`+x, -x, +y, -y, +z, -z`) and, within a face,
/// layer by layer upwards.
pub open spec fn quad_order_le(a: GreedyQuad, b: GreedyQuad) -> bool {
    a.face_idx < b.face_idx || (a.face_idx == b.face_idx && a.layer <= b.layer)
}

/// A rectangle that starts at its layer's first free slot starts at the
/// box's first free face of that layer, whatever quads of other layers came
/// before it.
proof fn lemma_layer_first(
    q: GreedyQuad,
    ql: Seq<GreedyQuad>,
    qa: Seq<GreedyQuad>,
    off: int,
    m: Map<IVec3, Color8>,
    hide: Option<IVec3>,
    recolor: Option<(IVec3, Color8)>,
    min: IVec3,
    max: IVec3,
    f: int,
    k: int,
    u_lo: int,
    v_lo: int,
    du: int,
    dv: int,
    m0: Seq<Option<Color8>>,
)
    requires
        0 <= f < 6,
        u_lo == min.spec_comp(face_u(f)),
        v_lo == min.spec_comp(face_v(f)),
        du == max.spec_comp(face_u(f)) - u_lo,
        dv == max.spec_comp(face_v(f)) - v_lo,
        forall|i: int, j: int|
            0 <= i < du && 0 <= j < dv ==> m0[#[trigger] ix(i, j, dv)] == slot_value(m, hide, recolor, f, k, u_lo, v_lo, i, j),
        quad_in_layer(q, f, k, u_lo, v_lo, du, dv, m0),
        forall|t: int| 0 <= t < ql.len() ==> quad_in_layer(#[trigger] ql[t], f, k, u_lo, v_lo, du, dv, m0),
        0 <= off,
        off + ql.len() == qa.len(),
        forall|t: int| 0 <= t < ql.len() ==> #[trigger] ql[t] == qa[off + t],
        first_in_layer(q, ql, u_lo, v_lo, du, dv, m0),
    ensures
        quad_first(q, qa, m, hide, recolor, min, max),
{
    assert forall|p: IVec3|
        in_box(p, min, max) && p.spec_comp(face_axis(f)) == q.layer && scan_before(q, p) && #[trigger] exposed(
            m,
            hide,
            recolor,
            f,
            p,
        ) implies exists|t: int| 0 <= t < qa.len() && #[trigger] qa[t].covers(f, p) by {
        let ii = p.spec_comp(face_u(f)) - u_lo;
        let jj = p.spec_comp(face_v(f)) - v_lo;
        lemma_slot_of(f, p, u_lo, v_lo);
        assert(0 <= ii < du && 0 <= jj < dv) by {
            if f < 2 {
            } else if f < 4 {
            } else {
            }
        }
        assert(m0[ix(ii, jj, dv)] is Some);
        let t = choose|t: int| 0 <= t < ql.len() && #[trigger] covers_slot(ql[t], u_lo, v_lo, ii, jj);
        assert(quad_in_layer(ql[t], f, k, u_lo, v_lo, du, dv, m0));
        assert(qa[off + t] == ql[t]);
        assert(qa[off + t].covers(f, p));
    }
}

/// Appending one layer's greedy rectangles, as quads, to the quads of the
/// earlier layers keeps every quad maximal, first in scan order and in
/// face-then-layer order.
#[verifier::spinoff_prover]
proof fn lemma_layer_greedy(
    qb: Seq<GreedyQuad>,
    qs: Seq<GreedyQuad>,
    m: Map<IVec3, Color8>,
    hide: Option<IVec3>,
    recolor: Option<(IVec3, Color8)>,
    min: IVec3,
    max: IVec3,
    f: int,
    k: int,
    u_lo: int,
    v_lo: int,
    du: int,
    dv: int,
    m0: Seq<Option<Color8>>,
)
    requires
        0 <= f < 6,
        u_lo == min.spec_comp(face_u(f)),
        v_lo == min.spec_comp(face_v(f)),
        du == max.spec_comp(face_u(f)) - u_lo,
        dv == max.spec_comp(face_v(f)) - v_lo,
        0 < du,
        0 < dv,
        forall|i: int, j: int|
            0 <= i < du && 0 <= j < dv ==> m0[#[trigger] ix(i, j, dv)] == slot_value(m, hide, recolor, f, k, u_lo, v_lo, i, j),
        qs.len() >= qb.len(),
        forall|t: int| 0 <= t < qb.len() ==> #[trigger] qs[t] == qb[t],
        forall|t: int|
            qb.len() <= t < qs.len() ==> quad_in_layer(#[trigger] qs[t], f, k, u_lo, v_lo, du, dv, m0),
        forall|t: int|
            qb.len() <= t < qs.len() ==> maximal_in_layer(#[trigger] qs[t], qs.subrange(qb.len() as int, t), u_lo, v_lo, du, dv, m0),
        forall|t: int|
            qb.len() <= t < qs.len() ==> first_in_layer(#[trigger] qs[t], qs.subrange(qb.len() as int, t), u_lo, v_lo, du, dv, m0),
        forall|t: int| 0 <= t < qb.len() ==> quad_maximal(#[trigger] qb[t], qb.subrange(0, t), m, hide, recolor, min, max),
        forall|t: int| 0 <= t < qb.len() ==> quad_first(#[trigger] qb[t], qb.subrange(0, t), m, hide, recolor, min, max),
        forall|t: int| 0 <= t < qb.len() ==> (#[trigger] qb[t]).face_idx < f || (qb[t].face_idx == f && qb[t].layer < k),
        forall|t1: int, t2: int| 0 <= t1 < t2 < qb.len() ==> quad_order_le(#[trigger] qb[t1], #[trigger] qb[t2]),
    ensures
        forall|t: int| 0 <= t < qs.len() ==> quad_maximal(#[trigger] qs[t], qs.subrange(0, t), m, hide, recolor, min, max),
        forall|t: int| 0 <= t < qs.len() ==> quad_first(#[trigger] qs[t], qs.subrange(0, t), m, hide, recolor, min, max),
        forall|t1: int, t2: int| 0 <= t1 < t2 < qs.len() ==> quad_order_le(#[trigger] qs[t1], #[trigger] qs[t2]),
{
    let n0 = qb.len() as int;
    assert forall|t: int| 0 <= t < qs.len() implies quad_maximal(#[trigger] qs[t], qs.subrange(0, t), m, hide, recolor, min, max)
        && quad_first(qs[t], qs.subrange(0, t), m, hide, recolor, min, max) by {
        if t < n0 {
            assert(qs.subrange(0, t) =~= qb.subrange(0, t));
        } else {
            let ql = qs.subrange(n0, t);
            let qa = qs.subrange(0, t);
            assert forall|t2: int| 0 <= t2 < ql.len() implies quad_in_layer(#[trigger] ql[t2], f, k, u_lo, v_lo, du, dv, m0) by {
                assert(ql[t2] == qs[n0 + t2]);
            }
            assert forall|t2: int| 0 <= t2 < ql.len() implies #[trigger] ql[t2] == qa[n0 + t2] by {
            }
            lemma_layer_maximal(qs[t], ql, qa, n0, m, hide, recolor, min, max, f, k, u_lo, v_lo, du, dv, m0);
            lemma_layer_first(qs[t], ql, qa, n0, m, hide, recolor, min, max, f, k, u_lo, v_lo, du, dv, m0);
        }
    }
    assert forall|t1: int, t2: int| 0 <= t1 < t2 < qs.len() implies quad_order_le(#[trigger] qs[t1], #[trigger] qs[t2]) by {
        if t2 < n0 {
        } else if t1 < n0 {
            assert(quad_in_layer(qs[t2], f, k, u_lo, v_lo, du, dv, m0));
        } else {
            assert(quad_in_layer(qs[t1], f, k, u_lo, v_lo, du, dv, m0));
            assert(quad_in_layer(qs[t2], f, k, u_lo, v_lo, du, dv, m0));
        }
    }
}

/// A rectangle that cannot grow within its layer's mask is a maximal quad
/// of the box, whatever quads of other layers came before it.
proof fn lemma_layer_maximal(
    q: GreedyQuad,
    ql: Seq<GreedyQuad>,
    qa: Seq<GreedyQuad>,
    off: int,
    m: Map<IVec3, Color8>,
    hide: Option<IVec3>,
    recolor: Option<(IVec3, Color8)>,
    min: IVec3,
    max: IVec3,
    f: int,
    k: int,
    u_lo: int,
    v_lo: int,
    du: int,
    dv: int,
    m0: Seq<Option<Color8>>,
)
    requires
        0 <= f < 6,
        u_lo == min.spec_comp(face_u(f)),
        v_lo == min.spec_comp(face_v(f)),
        du == max.spec_comp(face_u(f)) - u_lo,
        dv == max.spec_comp(face_v(f)) - v_lo,
        0 < du,
        0 < dv,
        forall|i: int, j: int|
            0 <= i < du && 0 <= j < dv ==> m0[#[trigger] ix(i, j, dv)] == slot_value(m, hide, recolor, f, k, u_lo, v_lo, i, j),
        quad_in_layer(q, f, k, u_lo, v_lo, du, dv, m0),
        forall|t: int| 0 <= t < ql.len() ==> quad_in_layer(#[trigger] ql[t], f, k, u_lo, v_lo, du, dv, m0),
        0 <= off,
        off + ql.len() == qa.len(),
        forall|t: int| 0 <= t < ql.len() ==> #[trigger] ql[t] == qa[off + t],
        maximal_in_layer(q, ql, u_lo, v_lo, du, dv, m0),
    ensures
        quad_maximal(q, qa, m, hide, recolor, min, max),
{
    let i = q.u0 - u_lo;
    let j0 = q.v0 - v_lo;
    assert forall|ii: int, jj: int|
        0 <= ii < du && 0 <= jj < dv && #[trigger] slot_blocked(m0, ql, u_lo, v_lo, dv, q.color, ii, jj) implies face_blocked(
        m,
        hide,
        recolor,
        min,
        max,
        qa,
        f,
        q.color,
        face_cell(f, k, u_lo + ii, v_lo + jj),
    ) by {
        let p = face_cell(f, k, u_lo + ii, v_lo + jj);
        assert(p == slot_cell(f, k, u_lo, v_lo, ii, jj));
        if m0[ix(ii, jj, dv)] == Some(q.color) {
            let t = choose|t: int| 0 <= t < ql.len() && #[trigger] covers_slot(ql[t], u_lo, v_lo, ii, jj);
            assert(quad_in_layer(ql[t], f, k, u_lo, v_lo, du, dv, m0));
            assert(qa[off + t] == ql[t]);
            assert(qa[off + t].covers(f, p));
        }
    }
    let pc = face_cell(f, k, q.u0 as int, q.v1 as int);
    if q.v1 - v_lo == dv {
        assert(!in_box(pc, min, max));
    } else {
        assert(slot_blocked(m0, ql, u_lo, v_lo, dv, q.color, i, q.v1 - v_lo));
        assert(pc == face_cell(f, k, u_lo + i, v_lo + (q.v1 - v_lo)));
    }
    if q.u1 - u_lo == du {
        let pr = face_cell(f, k, q.u1 as int, q.v0 as int);
        assert(!in_box(pr, min, max));
        assert(face_blocked(m, hide, recolor, min, max, qa, f, q.color, pr));
    } else {
        let jj = choose|jj: int| j0 <= jj < q.v1 - v_lo && #[trigger] slot_blocked(m0, ql, u_lo, v_lo, dv, q.color, q.u1 - u_lo, jj);
        let pr = face_cell(f, k, q.u1 as int, v_lo + jj);
        assert(pr == face_cell(f, k, u_lo + (q.u1 - u_lo), v_lo + jj));
        assert(face_blocked(m, hide, recolor, min, max, qa, f, q.color, pr));
    }
}

/// `q` is a non-empty rectangle of visible faces of cells in the box, all
/// drawn in `q`'s color.
pub open spec fn quad_ok(
    q: GreedyQuad,
    m: Map<IVec3, Color8>,
    hide: Option<IVec3>,
    recolor: Option<(IVec3, Color8)>,
    min: IVec3,
    max: IVec3,
) -> bool {
    &&& q.face_idx < 6
    &&& q.u0 < q.u1
    &&& q.v0 < q.v1
    &&& forall|p: IVec3|
        #[trigger] q.covers(q.face_idx as int, p) ==> in_box(p, min, max) && exposed(m, hide, recolor, q.face_idx as int, p)
            && drawn(m, hide, recolor, p) == Some(q.color)
}

proof fn lemma_slot_of(f: int, p: IVec3, u_lo: int, v_lo: int)
    requires
        0 <= f < 6,
    ensures
        p == slot_cell(
            f,
            p.spec_comp(face_axis(f)) as int,
            u_lo,
            v_lo,
            p.spec_comp(face_u(f)) - u_lo,
            p.spec_comp(face_v(f)) - v_lo,
        ),
{
}

/// Greedy-merged visible faces of the cells in the half-open box
/// `[min, max)`. Whether a face is visible looks at the whole grid, so
/// boxes that tile a region yield matching seams. `hide` takes one cell out
/// of the picture and `recolor` shows one cell in another RGB (keeping its
/// alpha); neither changes the grid. Each visible face of a cell in the box
/// lies in exactly one returned quad. Quads come face by face and layer by
/// layer; within a layer each one starts at the first visible face, in scan
/// order, that no earlier quad covers, and is as wide and then as tall as the
/// uncovered faces of its color allow.
pub fn greedy_quads_bounded(
    grid: &VoxelGrid,
    hide: Option<IVec3>,
    recolor: Option<(IVec3, Color8)>,
    min: IVec3,
    max: IVec3,
) -> (r: Vec<GreedyQuad>)
    requires
        grid.wf(),
        box_fits(min, max),
    ensures
        forall|t: int| 0 <= t < r@.len() ==> quad_ok(#[trigger] r@[t], grid@, hide, recolor, min, max),
        forall|f: int, p: IVec3|
            0 <= f < 6 && in_box(p, min, max) && #[trigger] exposed(grid@, hide, recolor, f, p) ==> exists|t: int|
                0 <= t < r@.len() && (#[trigger] r@[t]).covers(f, p),
        forall|t1: int, t2: int, f: int, p: IVec3|
            0 <= t1 < t2 < r@.len() ==> !(#[trigger] r@[t1].covers(f, p) && #[trigger] r@[t2].covers(f, p)),
        forall|t: int| 0 <= t < r@.len() ==> quad_maximal(#[trigger] r@[t], r@.subrange(0, t), grid@, hide, recolor, min, max),
        forall|t: int| 0 <= t < r@.len() ==> quad_first(#[trigger] r@[t], r@.subrange(0, t), grid@, hide, recolor, min, max),
        forall|t1: int, t2: int| 0 <= t1 < t2 < r@.len() ==> quad_order_le(#[trigger] r@[t1], #[trigger] r@[t2]),
{
    let mut quads: Vec<GreedyQuad> = Vec::new();
    let mut f: usize = 0;
    while f < 6
        invariant
            grid.wf(),
            box_fits(min, max),
            f <= 6,
            forall|t: int| 0 <= t < quads@.len() ==> quad_ok(#[trigger] quads@[t], grid@, hide, recolor, min, max),
            forall|t: int| 0 <= t < quads@.len() ==> (#[trigger] quads@[t]).face_idx < f,
            forall|f2: int, p: IVec3|
                0 <= f2 < f && in_box(p, min, max) && #[trigger] exposed(grid@, hide, recolor, f2, p) ==> exists|t: int|
                    0 <= t < quads@.len() && (#[trigger] quads@[t]).covers(f2, p),
            forall|t1: int, t2: int, f2: int, p: IVec3|
                0 <= t1 < t2 < quads@.len() ==> !(#[trigger] quads@[t1].covers(f2, p) && #[trigger] quads@[t2].covers(f2, p)),
            forall|t: int| 0 <= t < quads@.len() ==> quad_maximal(#[trigger] quads@[t], quads@.subrange(0, t), grid@, hide, recolor, min, max),
            forall|t: int| 0 <= t < quads@.len() ==> quad_first(#[trigger] quads@[t], quads@.subrange(0, t), grid@, hide, recolor, min, max),
            forall|t1: int, t2: int| 0 <= t1 < t2 < quads@.len() ==> quad_order_le(#[trigger] quads@[t1], #[trigger] quads@[t2]),
        decreases 6 - f,
    {
        let (axis, u, v) = face_axes(f);
        let k_lo = min.comp(axis);
        let k_hi = max.comp(axis);
        let u_lo = min.comp(u);
        let u_hi = max.comp(u);
        let v_lo = min.comp(v);
        let v_hi = max.comp(v);
        if u_hi <= u_lo || v_hi <= v_lo || k_hi <= k_lo {
            proof {
                assert forall|p: IVec3| in_box(p, min, max) implies false by {
                }
            }
            f = f + 1;
            continue;
        }
        let du = (u_hi - u_lo) as usize;
        let dv = (v_hi - v_lo) as usize;
        let mut k = k_lo;
        while k < k_hi
            invariant
                grid.wf(),
                box_fits(min, max),
                f < 6,
                (axis, u, v) == (face_axis(f as int), face_u(f as int), face_v(f as int)),
                k_lo == min.spec_comp(axis),
                k_hi == max.spec_comp(axis),
                u_lo == min.spec_comp(u),
                u_hi == max.spec_comp(u),
                v_lo == min.spec_comp(v),
                v_hi == max.spec_comp(v),
                du == u_hi - u_lo,
                dv == v_hi - v_lo,
                0 < du,
                0 < dv,
                du * dv <= usize::MAX,
                k_lo <= k <= k_hi,
                forall|t: int| 0 <= t < quads@.len() ==> quad_ok(#[trigger] quads@[t], grid@, hide, recolor, min, max),
                forall|t: int|
                    0 <= t < quads@.len() ==> (#[trigger] quads@[t]).face_idx < f || (quads@[t].face_idx == f
                        && quads@[t].layer < k),
                forall|f2: int, p: IVec3|
                    0 <= f2 < f && in_box(p, min, max) && #[trigger] exposed(grid@, hide, recolor, f2, p) ==> exists|t: int|
                        0 <= t < quads@.len() && (#[trigger] quads@[t]).covers(f2, p),
                forall|p: IVec3|
                    in_box(p, min, max) && p.spec_comp(axis) < k && #[trigger] exposed(grid@, hide, recolor, f as int, p) ==> exists|t: int|
                        0 <= t < quads@.len() && (#[trigger] quads@[t]).covers(f as int, p),
                forall|t1: int, t2: int, f2: int, p: IVec3|
                    0 <= t1 < t2 < quads@.len() ==> !(#[trigger] quads@[t1].covers(f2, p) && #[trigger] quads@[t2].covers(f2, p)),
                forall|t: int| 0 <= t < quads@.len() ==> quad_maximal(#[trigger] quads@[t], quads@.subrange(0, t), grid@, hide, recolor, min, max),
            forall|t: int| 0 <= t < quads@.len() ==> quad_first(#[trigger] quads@[t], quads@.subrange(0, t), grid@, hide, recolor, min, max),
            forall|t1: int, t2: int| 0 <= t1 < t2 < quads@.len() ==> quad_order_le(#[trigger] quads@[t1], #[trigger] quads@[t2]),
            decreases k_hi - k,
        {
            let mut mask = fill_mask(grid, hide, recolor, f, k, u_lo, v_lo, du, dv);
            let ghost m0 = mask@;
            let ghost qb = quads@;
            sweep_layer(&mut mask, du, dv, f, k, u_lo, v_lo, &mut quads);
            proof {
                assert forall|t: int| 0 <= t < qb.len() implies quads@[t] == qb[t] by {
                    assert(quads@.subrange(0, qb.len() as int)[t] == qb[t]);
                }
                assert forall|t: int| 0 <= t < quads@.len() implies quad_ok(#[trigger] quads@[t], grid@, hide, recolor, min, max) by {
                    if t < qb.len() {
                        assert(quads@[t] == qb[t]);
                    } else {
                        let q = quads@[t];
                        assert(quad_in_layer(q, f as int, k as int, u_lo as int, v_lo as int, du as int, dv as int, m0));
                        assert forall|p: IVec3| #[trigger] q.covers(q.face_idx as int, p) implies in_box(p, min, max) && exposed(grid@, hide, recolor, q.face_idx as int, p)
                            && drawn(grid@, hide, recolor, p) == Some(q.color) by {
                            let i = p.spec_comp(u) - u_lo;
                            let j = p.spec_comp(v) - v_lo;
                            lemma_slot_of(f as int, p, u_lo as int, v_lo as int);
                            assert(covers_slot(q, u_lo as int, v_lo as int, i, j));
                            assert(m0[ix(i, j, dv as int)] == Some(q.color));
                            assert(in_box(p, min, max)) by {
                                if f < 2 {
                                } else if f < 4 {
                                } else {
                                }
                            }
                        }
                    }
                }
                assert forall|p: IVec3|
                    in_box(p, min, max) && p.spec_comp(axis) < k + 1 && #[trigger] exposed(grid@, hide, recolor, f as int, p) implies exists|t: int|
                        0 <= t < quads@.len() && (#[trigger] quads@[t]).covers(f as int, p) by {
                    if p.spec_comp(axis) < k {
                        let t = choose|t: int| 0 <= t < qb.len() && (#[trigger] qb[t]).covers(f as int, p);
                        assert(quads@[t] == qb[t]);
                    } else {
                        let i = p.spec_comp(u) - u_lo;
                        let j = p.spec_comp(v) - v_lo;
                        lemma_slot_of(f as int, p, u_lo as int, v_lo as int);
                        assert(m0[ix(i, j, dv as int)] is Some);
                        let t = choose|t: int| qb.len() <= t < quads@.len() && covers_slot(#[trigger] quads@[t], u_lo as int, v_lo as int, i, j);
                        assert(quad_in_layer(quads@[t], f as int, k as int, u_lo as int, v_lo as int, du as int, dv as int, m0));
                        assert(quads@[t].covers(f as int, p));
                    }
                }
                assert forall|f2: int, p: IVec3|
                    0 <= f2 < f && in_box(p, min, max) && #[trigger] exposed(grid@, hide, recolor, f2, p) implies exists|t: int|
                        0 <= t < quads@.len() && (#[trigger] quads@[t]).covers(f2, p) by {
                    let t = choose|t: int| 0 <= t < qb.len() && (#[trigger] qb[t]).covers(f2, p);
                    assert(quads@[t] == qb[t]);
                }
                assert forall|t1: int, t2: int, f2: int, p: IVec3|
                    0 <= t1 < t2 < quads@.len() implies !(#[trigger] quads@[t1].covers(f2, p) && #[trigger] quads@[t2].covers(f2, p)) by {
                    if t2 < qb.len() {
                        assert(quads@[t1] == qb[t1] && quads@[t2] == qb[t2]);
                    } else if t1 < qb.len() {
                        assert(quads@[t1] == qb[t1]);
                        assert(quad_in_layer(quads@[t2], f as int, k as int, u_lo as int, v_lo as int, du as int, dv as int, m0));
                    } else if quads@[t1].covers(f2, p) && quads@[t2].covers(f2, p) {
                        let i = p.spec_comp(u) - u_lo;
                        let j = p.spec_comp(v) - v_lo;
                        assert(quad_in_layer(quads@[t1], f as int, k as int, u_lo as int, v_lo as int, du as int, dv as int, m0));
                        assert(quad_in_layer(quads@[t2], f as int, k as int, u_lo as int, v_lo as int, du as int, dv as int, m0));
                        assert(covers_slot(quads@[t1], u_lo as int, v_lo as int, i, j));
                        assert(covers_slot(quads@[t2], u_lo as int, v_lo as int, i, j));
                    }
                }
                assert forall|t: int| 0 <= t < quads@.len() implies (#[trigger] quads@[t]).face_idx < f || (quads@[t].face_idx == f
                    && quads@[t].layer < k + 1) by {
                    if t < qb.len() {
                        assert(quads@[t] == qb[t]);
                    } else {
                        assert(quad_in_layer(quads@[t], f as int, k as int, u_lo as int, v_lo as int, du as int, dv as int, m0));
                    }
                }
            }
            proof {
                lemma_layer_greedy(
                    qb, quads@, grid@, hide, recolor, min, max, f as int, k as int, u_lo as int, v_lo as int,
                    du as int, dv as int, m0,
                );
            }
            k = k + 1;
        }
        f = f + 1;
    }
    quads
}

// ---------------------------------------------------------------------------
// Meshing the whole grid
// ---------------------------------------------------------------------------

/// `q` is a non-empty rectangle of visible faces all drawn in its color.
pub open spec fn quad_visible(q: GreedyQuad, m: Map<IVec3, Color8>, hide: Option<IVec3>, recolor: Option<(IVec3, Color8)>) -> bool {
    &&& q.face_idx < 6
    &&& q.u0 < q.u1
    &&& q.v0 < q.v1
    &&& forall|p: IVec3|
        #[trigger] q.covers(q.face_idx as int, p) ==> exposed(m, hide, recolor, q.face_idx as int, p) && drawn(
            m,
            hide,
            recolor,
            p,
        ) == Some(q.color)
}

/// Every occupied cell keeps 32 cells of `i32` room on each side, so the
/// boxes of the chunks holding cells stay in range.
pub open spec fn cells_in_range(m: Map<IVec3, Color8>) -> bool {
    forall|p: IVec3|
        #[trigger] m.contains_key(p) ==> i32::MIN + 32 <= p.x <= i32::MAX - 32 && i32::MIN + 32 <= p.y
            <= i32::MAX - 32 && i32::MIN + 32 <= p.z <= i32::MAX - 32
}

/// Low corner of chunk `c`'s box.
pub open spec fn chunk_min(c: IVec3) -> IVec3 {
    IVec3 { x: (c.x * 32) as i32, y: (c.y * 32) as i32, z: (c.z * 32) as i32 }
}

/// High (exclusive) corner of chunk `c`'s box.
pub open spec fn chunk_max(c: IVec3) -> IVec3 {
    IVec3 { x: (c.x * 32 + 32) as i32, y: (c.y * 32 + 32) as i32, z: (c.z * 32 + 32) as i32 }
}

/// A cell in range lies in the box of its own chunk, and in no other.
proof fn lemma_chunk_box(p: IVec3, c: IVec3)
    requires
        i32::MIN + 32 <= p.x <= i32::MAX - 32,
        i32::MIN + 32 <= p.y <= i32::MAX - 32,
        i32::MIN + 32 <= p.z <= i32::MAX - 32,
    ensures
        in_box(p, chunk_min(spec_chunk_coord(p)), chunk_max(spec_chunk_coord(p))),
        i32::MIN < spec_chunk_coord(p).x * 32 && spec_chunk_coord(p).x * 32 + 32 <= i32::MAX,
        i32::MIN < spec_chunk_coord(p).y * 32 && spec_chunk_coord(p).y * 32 + 32 <= i32::MAX,
        i32::MIN < spec_chunk_coord(p).z * 32 && spec_chunk_coord(p).z * 32 + 32 <= i32::MAX,
        i32::MIN <= c.x * 32 && c.x * 32 + 32 <= i32::MAX && i32::MIN <= c.y * 32 && c.y * 32 + 32 <= i32::MAX
            && i32::MIN <= c.z * 32 && c.z * 32 + 32 <= i32::MAX && in_box(p, chunk_min(c), chunk_max(c)) ==> c
            == spec_chunk_coord(p),
{
    reveal(spec_chunk_coord);
}

/// Greedy-merged visible faces of the whole grid, chunk by chunk (see
/// [`greedy_quads_bounded`]). Each visible face lies in exactly one quad.
pub fn greedy_quads(grid: &VoxelGrid, hide: Option<IVec3>, recolor: Option<(IVec3, Color8)>) -> (r: Vec<GreedyQuad>)
    requires
        grid.wf(),
        cells_in_range(grid@),
    ensures
        forall|t: int| 0 <= t < r@.len() ==> quad_visible(#[trigger] r@[t], grid@, hide, recolor),
        forall|f: int, p: IVec3|
            0 <= f < 6 && #[trigger] exposed(grid@, hide, recolor, f, p) ==> exists|t: int|
                0 <= t < r@.len() && (#[trigger] r@[t]).covers(f, p),
        forall|t1: int, t2: int, f: int, p: IVec3|
            0 <= t1 < t2 < r@.len() ==> !(#[trigger] r@[t1].covers(f, p) && #[trigger] r@[t2].covers(f, p)),
{
    let coords = grid.chunk_coords();
    let mut out: Vec<GreedyQuad> = Vec::new();
    let ghost mut src: Seq<int> = Seq::empty();
    let mut n: usize = 0;
    while n < coords.len()
        invariant
            grid.wf(),
            cells_in_range(grid@),
            coords@.no_duplicates(),
            forall|c: IVec3| #[trigger] coords@.contains(c) <==> occupied_chunks(grid@).contains(c),
            n <= coords@.len(),
            src.len() == out@.len(),
            forall|t: int| 0 <= t < out@.len() ==> quad_visible(#[trigger] out@[t], grid@, hide, recolor),
            forall|t: int| 0 <= t < out@.len() ==> 0 <= #[trigger] src[t] < n,
            forall|t: int, p: IVec3|
                0 <= t < out@.len() && #[trigger] out@[t].covers(out@[t].face_idx as int, p) ==> in_box(
                    p,
                    chunk_min(coords@[src[t]]),
                    chunk_max(coords@[src[t]]),
                ),
            forall|f: int, p: IVec3|
                0 <= f < 6 && #[trigger] exposed(grid@, hide, recolor, f, p) && (exists|j: int| 0 <= j < n && coords@[j] == spec_chunk_coord(p))
                    ==> exists|t: int| 0 <= t < out@.len() && (#[trigger] out@[t]).covers(f, p),
            forall|t1: int, t2: int, f: int, p: IVec3|
                0 <= t1 < t2 < out@.len() ==> !(#[trigger] out@[t1].covers(f, p) && #[trigger] out@[t2].covers(f, p)),
        decreases coords@.len() - n,
    {
        let c = coords[n];
        proof {
            assert(coords@.contains(c));
            let p = choose|p: IVec3| #[trigger] grid@.contains_key(p) && spec_chunk_coord(p) == c;
            lemma_chunk_box(p, c);
        }
        let lo = IVec3::new(c.x * 32, c.y * 32, c.z * 32);
        let hi = IVec3::new(c.x * 32 + 32, c.y * 32 + 32, c.z * 32 + 32);
        let quads = greedy_quads_bounded(grid, hide, recolor, lo, hi);
        let ghost ob = out@;
        let ghost sb = src;
        let mut qi: usize = 0;
        while qi < quads.len()
            invariant
                ob.len() + qi == out@.len(),
                src.len() == out@.len(),
                out@.subrange(0, ob.len() as int) == ob,
                src.subrange(0, ob.len() as int) == sb,
                qi <= quads@.len(),
                forall|t: int| 0 <= t < qi ==> out@[ob.len() + t] == quads@[t],
                forall|t: int| ob.len() <= t < out@.len() ==> src[t] == n,
            decreases quads@.len() - qi,
        {
            out.push(quads[qi]);
            proof {
                src = src.push(n as int);
                assert(out@.subrange(0, ob.len() as int) =~= ob);
                assert(src.subrange(0, ob.len() as int) =~= sb);
            }
            qi = qi + 1;
        }
        proof {
            assert forall|t: int| 0 <= t < ob.len() implies out@[t] == ob[t] && src[t] == sb[t] by {
                assert(out@.subrange(0, ob.len() as int)[t] == ob[t]);
                assert(src.subrange(0, ob.len() as int)[t] == sb[t]);
            }
            assert forall|t: int| 0 <= t < out@.len() implies quad_visible(#[trigger] out@[t], grid@, hide, recolor) by {
                if t >= ob.len() {
                    let q = quads@[t - ob.len()];
                    assert(out@[t] == q);
                    assert(quad_ok(q, grid@, hide, recolor, lo, hi));
                    assert forall|p: IVec3| #[trigger] q.covers(q.face_idx as int, p) implies exposed(grid@, hide, recolor, q.face_idx as int, p)
                        && drawn(grid@, hide, recolor, p) == Some(q.color) by {
                    }
                } else {
                    assert(out@[t] == ob[t]);
                }
            }
            assert forall|t: int| 0 <= t < out@.len() implies 0 <= #[trigger] src[t] < n + 1 by {
            }
            assert forall|t: int, p: IVec3|
                0 <= t < out@.len() && #[trigger] out@[t].covers(out@[t].face_idx as int, p) implies in_box(
                    p,
                    chunk_min(coords@[src[t]]),
                    chunk_max(coords@[src[t]]),
                ) by {
                if t >= ob.len() {
                    let q = quads@[t - ob.len()];
                    assert(out@[t] == q);
                    assert(quad_ok(q, grid@, hide, recolor, lo, hi));
                }
            }
            assert forall|f: int, p: IVec3|
                0 <= f < 6 && #[trigger] exposed(grid@, hide, recolor, f, p) && (exists|j: int| 0 <= j < n + 1 && coords@[j] == spec_chunk_coord(p))
                    implies exists|t: int| 0 <= t < out@.len() && (#[trigger] out@[t]).covers(f, p) by {
                let j = choose|j: int| 0 <= j < n + 1 && coords@[j] == spec_chunk_coord(p);
                if j < n {
                    let t = choose|t: int| 0 <= t < ob.len() && (#[trigger] ob[t]).covers(f, p);
                    assert(out@[t] == ob[t]);
                } else {
                    assert(map_get(grid@, p) is Some);
                    assert(grid@.contains_key(p));
                    lemma_chunk_box(p, c);
                    let t = choose|t: int| 0 <= t < quads@.len() && (#[trigger] quads@[t]).covers(f, p);
                    assert(out@[ob.len() + t] == quads@[t]);
                }
            }
            assert forall|t1: int, t2: int, f: int, p: IVec3|
                0 <= t1 < t2 < out@.len() implies !(#[trigger] out@[t1].covers(f, p) && #[trigger] out@[t2].covers(f, p)) by {
                if out@[t1].covers(f, p) && out@[t2].covers(f, p) {
                    if t2 < ob.len() {
                    } else if t1 >= ob.len() {
                        assert(out@[t1] == quads@[t1 - ob.len()]);
                        assert(out@[t2] == quads@[t2 - ob.len()]);
                    } else {
                        let j1 = src[t1];
                        let c1 = coords@[j1];
                        assert(in_box(p, chunk_min(c1), chunk_max(c1)));
                        assert(in_box(p, chunk_min(c), chunk_max(c)));
                        assert(quad_visible(out@[t1], grid@, hide, recolor));
                        assert(map_get(grid@, p) is Some);
                        assert(grid@.contains_key(p));
                        assert(coords@.contains(c1));
                        let pp = choose|pp: IVec3| #[trigger] grid@.contains_key(pp) && spec_chunk_coord(pp) == c1;
                        lemma_chunk_box(pp, c1);
                        lemma_chunk_box(p, c1);
                        lemma_chunk_box(p, c);
                        assert(j1 != n as int);
                    }
                }
            }
        }
        n = n + 1;
    }
    proof {
        assert forall|f: int, p: IVec3|
            0 <= f < 6 && #[trigger] exposed(grid@, hide, recolor, f, p) implies exists|t: int|
                0 <= t < out@.len() && (#[trigger] out@[t]).covers(f, p) by {
            assert(map_get(grid@, p) is Some);
            assert(grid@.contains_key(p));
            assert(occupied_chunks(grid@).contains(spec_chunk_coord(p)));
            assert(coords@.contains(spec_chunk_coord(p)));
        }
    }
    out
}

} // verus!
