//! glTF 2.0 binary (`.glb`) export: one quad per exposed cell face, with
//! per-vertex colors, in a single file with an embedded buffer. Positions
//! are whole cell coordinates; the buffer's `f32` encoding is the caller's.

use crate::bytes::{le_bytes, push_all, push_u32_le};
use crate::color::{int_text, nat_digits, push_int, push_nat64};
use crate::geom::{Color8, IVec3};
use crate::grid::{le3, map_get, VoxelGrid};
use crate::mesh::{across, face_axis, face_sign, face_u, face_v, GreedyQuad};
use crate::vox::lists_cells;
use vstd::prelude::*;

verus! {

/// `glTF`
pub const GLB_MAGIC: u32 = 0x46546C67;

pub const GLB_VERSION: u32 = 2;

/// `JSON`
pub const CHUNK_JSON: u32 = 0x4E4F534A;

/// `BIN\0`
pub const CHUNK_BIN: u32 = 0x004E4942;

// ---------------------------------------------------------------------------
// Framing
// ---------------------------------------------------------------------------

/// `n` rounded up to a multiple of four.
pub open spec fn spec_align4(n: int) -> int {
    ((n + 3) / 4) * 4
}

/// `n` rounded up to a multiple of four.
pub fn align4(n: usize) -> (r: usize)
    requires
        n + 3 <= usize::MAX,
    ensures
        r == spec_align4(n as int),
{
    ((n + 3) / 4) * 4
}

/// Zero bytes that bring a length of `n` to a multiple of four.
pub open spec fn pad_len(n: int) -> int {
    spec_align4(n) - n
}

/// Appends zero bytes until the length is a multiple of four.
pub fn pad_to_4(buf: &mut Vec<u8>)
    ensures
        final(buf)@ == old(buf)@ + Seq::new(pad_len(old(buf)@.len() as int) as nat, |i: int| 0u8),
{
    pad_with(buf, 0u8);
}

/// Appends `fill` until the length is a multiple of four.
fn pad_with(buf: &mut Vec<u8>, fill: u8)
    ensures
        final(buf)@ == old(buf)@ + Seq::new(pad_len(old(buf)@.len() as int) as nat, |i: int| fill),
{
    let ghost start = buf@;
    while buf.len() % 4 != 0
        invariant
            start.len() <= buf@.len() <= spec_align4(start.len() as int),
            buf@ == start + Seq::new((buf@.len() - start.len()) as nat, |i: int| fill),
        decreases spec_align4(start.len() as int) - buf@.len(),
    {
        buf.push(fill);
        proof {
            assert(buf@ =~= start + Seq::new((buf@.len() - start.len()) as nat, |i: int| fill));
        }
    }
    proof {
        assert(buf@.len() == spec_align4(start.len() as int));
    }
}

/// A `.glb` file: header, the JSON chunk, the binary chunk.
pub open spec fn glb_bytes(json: Seq<u8>, bin: Seq<u8>) -> Seq<u8> {
    le_bytes(GLB_MAGIC) + le_bytes(GLB_VERSION) + le_bytes((12 + 8 + json.len() + 8 + bin.len()) as u32)
        + le_bytes(json.len() as u32) + le_bytes(CHUNK_JSON) + json + le_bytes(bin.len() as u32) + le_bytes(
        CHUNK_BIN,
    ) + bin
}

/// The `.glb` file holding the JSON document `json` and the buffer `bin`.
pub fn write_glb(json: &[u8], bin: &[u8]) -> (r: Vec<u8>)
    requires
        12 + 8 + json@.len() + 8 + bin@.len() <= usize::MAX,
    ensures
        r@ == glb_bytes(json@, bin@),
{
    let total_len = 12 + 8 + json.len() + 8 + bin.len();
    let mut w: Vec<u8> = Vec::new();
    push_u32_le(&mut w, GLB_MAGIC);
    push_u32_le(&mut w, GLB_VERSION);
    push_u32_le(&mut w, total_len as u32);
    push_u32_le(&mut w, json.len() as u32);
    push_u32_le(&mut w, CHUNK_JSON);
    push_all(&mut w, json);
    push_u32_le(&mut w, bin.len() as u32);
    push_u32_le(&mut w, CHUNK_BIN);
    push_all(&mut w, bin);
    proof {
        assert(w@ =~= glb_bytes(json@, bin@));
    }
    w
}

// ---------------------------------------------------------------------------
// Mesh
// ---------------------------------------------------------------------------

/// One quad per exposed face: four vertices each (positions, normals,
/// colors) and two triangles.
pub struct GlbMesh {
    pub positions: Vec<IVec3>,
    pub normals: Vec<IVec3>,
    pub colors: Vec<Color8>,
    pub indices: Vec<u32>,
    /// Bounding box of the positions; the origin when there are none.
    pub pos_min: IVec3,
    pub pos_max: IVec3,
}

/// The unit quad of face `f` of cell `p`.
pub open spec fn unit_quad(p: IVec3, f: int, c: Color8) -> GreedyQuad {
    GreedyQuad {
        face_idx: f as usize,
        layer: p.spec_comp(face_axis(f)),
        u0: p.spec_comp(face_u(f)),
        v0: p.spec_comp(face_v(f)),
        u1: (p.spec_comp(face_u(f)) + 1) as i32,
        v1: (p.spec_comp(face_v(f)) + 1) as i32,
        color: c,
    }
}

/// The outward normal of face `f`.
pub open spec fn face_normal(f: int) -> IVec3 {
    IVec3 { x: 0, y: 0, z: 0 }.spec_with(face_axis(f), face_sign(f) as i32)
}

/// The exposed faces of cell `p` (color `c`) in `m`, in face order.
pub open spec fn cell_faces(m: Map<IVec3, Color8>, p: IVec3, c: Color8) -> Seq<(IVec3, int, Color8)> {
    Seq::new(6, |f: int| f).filter(|f: int| !m.contains_key(across(f, p))).map_values(|f: int| (p, f, c))
}

/// The exposed faces of the listed cells, cell by cell.
pub open spec fn exposed_faces(m: Map<IVec3, Color8>, cs: Seq<(IVec3, Color8)>) -> Seq<(IVec3, int, Color8)>
    decreases cs.len(),
{
    if cs.len() == 0 {
        Seq::empty()
    } else {
        exposed_faces(m, cs.drop_last()) + cell_faces(m, cs.last().0, cs.last().1)
    }
}

/// Vertex `k` of face `i` is corner `k` of its unit quad.
pub open spec fn face_vertex(fs: Seq<(IVec3, int, Color8)>, i: int) -> IVec3 {
    unit_quad(fs[i / 4].0, fs[i / 4].1, fs[i / 4].2).spec_corner(i % 4)
}

/// Triangle corner `i`: faces `(0, 1, 2)` and `(0, 2, 3)` of each quad.
pub open spec fn quad_index(i: int) -> u32 {
    let k = i % 6;
    (4 * (i / 6) + if k == 0 || k == 3 {
        0int
    } else if k == 1 {
        1int
    } else if k == 2 || k == 4 {
        2int
    } else {
        3int
    }) as u32
}

/// `mesh` is the quad mesh of the faces `fs`.
pub open spec fn mesh_of(fs: Seq<(IVec3, int, Color8)>, mesh: GlbMesh) -> bool {
    &&& mesh.positions@ == Seq::new(4 * fs.len(), |i: int| face_vertex(fs, i))
    &&& mesh.normals@ == Seq::new(4 * fs.len(), |i: int| face_normal(fs[i / 4].1))
    &&& mesh.colors@ == Seq::new(4 * fs.len(), |i: int| fs[i / 4].2)
    &&& mesh.indices@ == Seq::new(6 * fs.len(), |i: int| quad_index(i))
    &&& fs.len() == 0 ==> mesh.pos_min == (IVec3 { x: 0, y: 0, z: 0 }) && mesh.pos_max == (IVec3 { x: 0, y: 0, z: 0 })
    &&& fs.len() > 0 ==> seq_box(mesh.positions@, mesh.pos_min, mesh.pos_max)
}

/// `mn` and `mx` are the component-wise least and greatest coordinates of
/// `ps`.
pub open spec fn seq_box(ps: Seq<IVec3>, mn: IVec3, mx: IVec3) -> bool {
    &&& forall|i: int| 0 <= i < ps.len() ==> le3(mn, #[trigger] ps[i]) && le3(ps[i], mx)
    &&& exists|i: int| 0 <= i < ps.len() && #[trigger] ps[i].x == mn.x
    &&& exists|i: int| 0 <= i < ps.len() && #[trigger] ps[i].y == mn.y
    &&& exists|i: int| 0 <= i < ps.len() && #[trigger] ps[i].z == mn.z
    &&& exists|i: int| 0 <= i < ps.len() && #[trigger] ps[i].x == mx.x
    &&& exists|i: int| 0 <= i < ps.len() && #[trigger] ps[i].y == mx.y
    &&& exists|i: int| 0 <= i < ps.len() && #[trigger] ps[i].z == mx.z
}

proof fn lemma_box_push(ps: Seq<IVec3>, mn: IVec3, mx: IVec3, q: IVec3)
    requires
        ps.len() == 0 || seq_box(ps, mn, mx),
    ensures
        ps.len() == 0 ==> seq_box(ps.push(q), q, q),
        ps.len() > 0 ==> seq_box(ps.push(q), mn.spec_min(q), mx.spec_max(q)),
{
    let s = ps.push(q);
    let n = ps.len() as int;
    assert(s[n] == q);
    if ps.len() > 0 {
        let a = mn.spec_min(q);
        let b = mx.spec_max(q);
        assert forall|i: int| 0 <= i < s.len() implies le3(a, #[trigger] s[i]) && le3(s[i], b) by {
            if i < n {
                assert(s[i] == ps[i]);
            }
        }
        if q.x < mn.x { assert(s[n].x == a.x); } else {
            let i = choose|i: int| 0 <= i < ps.len() && #[trigger] ps[i].x == mn.x;
            assert(s[i].x == a.x);
        }
        if q.y < mn.y { assert(s[n].y == a.y); } else {
            let i = choose|i: int| 0 <= i < ps.len() && #[trigger] ps[i].y == mn.y;
            assert(s[i].y == a.y);
        }
        if q.z < mn.z { assert(s[n].z == a.z); } else {
            let i = choose|i: int| 0 <= i < ps.len() && #[trigger] ps[i].z == mn.z;
            assert(s[i].z == a.z);
        }
        if q.x > mx.x { assert(s[n].x == b.x); } else {
            let i = choose|i: int| 0 <= i < ps.len() && #[trigger] ps[i].x == mx.x;
            assert(s[i].x == b.x);
        }
        if q.y > mx.y { assert(s[n].y == b.y); } else {
            let i = choose|i: int| 0 <= i < ps.len() && #[trigger] ps[i].y == mx.y;
            assert(s[i].y == b.y);
        }
        if q.z > mx.z { assert(s[n].z == b.z); } else {
            let i = choose|i: int| 0 <= i < ps.len() && #[trigger] ps[i].z == mx.z;
            assert(s[i].z == b.z);
        }
    } else {
        assert(s.len() == 1);
    }
}

/// Every cell has a neighbour on each side within the `i32` range.
pub open spec fn cells_interior(m: Map<IVec3, Color8>) -> bool {
    forall|p: IVec3|
        #[trigger] m.contains_key(p) ==> i32::MIN < p.x < i32::MAX && i32::MIN < p.y < i32::MAX && i32::MIN < p.z
            < i32::MAX
}

fn face_quad(p: IVec3, f: usize, c: Color8) -> (q: GreedyQuad)
    requires
        f < 6,
        i32::MIN < p.x < i32::MAX,
        i32::MIN < p.y < i32::MAX,
        i32::MIN < p.z < i32::MAX,
    ensures
        q == unit_quad(p, f as int, c),
        q.layer < i32::MAX,
{
    let (a, u, v) = if f < 2 {
        (0usize, 1usize, 2usize)
    } else if f < 4 {
        (1, 0, 2)
    } else {
        (2, 0, 1)
    };
    GreedyQuad {
        face_idx: f,
        layer: p.comp(a),
        u0: p.comp(u),
        v0: p.comp(v),
        u1: p.comp(u) + 1,
        v1: p.comp(v) + 1,
        color: c,
    }
}

fn neighbour(p: IVec3, f: usize) -> (q: IVec3)
    requires
        f < 6,
        i32::MIN < p.x < i32::MAX,
        i32::MIN < p.y < i32::MAX,
        i32::MIN < p.z < i32::MAX,
    ensures
        q == across(f as int, p),
{
    let a: usize = if f < 2 {
        0
    } else if f < 4 {
        1
    } else {
        2
    };
    let s: i32 = if f % 2 == 0 {
        1
    } else {
        -1
    };
    p.with(a, p.comp(a) + s)
}

fn normal_of(f: usize) -> (n: IVec3)
    requires
        f < 6,
    ensures
        n == face_normal(f as int),
{
    let a: usize = if f < 2 {
        0
    } else if f < 4 {
        1
    } else {
        2
    };
    let s: i32 = if f % 2 == 0 {
        1
    } else {
        -1
    };
    IVec3::new(0, 0, 0).with(a, s)
}

/// Appends the quad of face `f` of cell `p`.
fn push_face(mesh: &mut GlbMesh, p: IVec3, f: usize, c: Color8, Ghost(fs): Ghost<Seq<(IVec3, int, Color8)>>)
    requires
        mesh_of(fs, *old(mesh)),
        f < 6,
        i32::MIN < p.x < i32::MAX,
        i32::MIN < p.y < i32::MAX,
        i32::MIN < p.z < i32::MAX,
        4 * (fs.len() + 1) <= u32::MAX,
    ensures
        mesh_of(fs.push((p, f as int, c)), *final(mesh)),
{
    let ghost nfs = fs.push((p, f as int, c));
    let ghost n = fs.len() as int;
    let base = mesh.positions.len() as u32;
    let q = face_quad(p, f, c);
    let cs = q.corners();
    let nrm = normal_of(f);
    let mut k: usize = 0;
    while k < 4
        invariant
            k <= 4,
            n == fs.len(),
            nfs == fs.push((p, f as int, c)),
            q == unit_quad(p, f as int, c),
            nrm == face_normal(f as int),
            forall|idx: int| 0 <= idx < 4 ==> cs@[idx] == q.spec_corner(idx),
            mesh.positions@ == Seq::new((4 * n + k) as nat, |i: int| face_vertex(nfs, i)),
            mesh.normals@ == Seq::new((4 * n + k) as nat, |i: int| face_normal(nfs[i / 4].1)),
            mesh.colors@ == Seq::new((4 * n + k) as nat, |i: int| nfs[i / 4].2),
            mesh.indices@ == Seq::new(6 * fs.len(), |i: int| quad_index(i)),
            4 * n + k == 0 ==> mesh.pos_min == (IVec3 { x: 0, y: 0, z: 0 }) && mesh.pos_max == (IVec3 { x: 0, y: 0, z: 0 }),
            4 * n + k > 0 ==> seq_box(mesh.positions@, mesh.pos_min, mesh.pos_max),
        decreases 4 - k,
    {
        let v = cs[k];
        let ghost ps = mesh.positions@;
        proof {
            lemma_box_push(ps, mesh.pos_min, mesh.pos_max, v);
            assert forall|i: int| 0 <= i < 4 * n implies #[trigger] face_vertex(nfs, i) == face_vertex(fs, i) by {
                assert(i / 4 < n) by (nonlinear_arith) requires 0 <= i < 4 * n;
                assert(nfs[i / 4] == fs[i / 4]);
            }
        }
        if mesh.positions.len() == 0 {
            mesh.pos_min = v;
            mesh.pos_max = v;
        } else {
            mesh.pos_min = mesh.pos_min.min(v);
            mesh.pos_max = mesh.pos_max.max(v);
        }
        mesh.positions.push(v);
        mesh.normals.push(nrm);
        mesh.colors.push(c);
        proof {
            let j = 4 * n + k;
            assert(j / 4 == n && j % 4 == k) by (nonlinear_arith) requires j == 4 * n + k, 0 <= k < 4;
            assert(nfs[n] == (p, f as int, c));
            assert(face_vertex(nfs, j) == v);
            assert(mesh.positions@ =~= Seq::new((j + 1) as nat, |i: int| face_vertex(nfs, i))) by {
                assert forall|i: int| 0 <= i < j + 1 implies mesh.positions@[i] == face_vertex(nfs, i) by {
                    if i < j {
                        if i < 4 * n {
                            assert(face_vertex(nfs, i) == face_vertex(fs, i));
                        }
                    }
                }
            }
            assert(mesh.normals@ =~= Seq::new((j + 1) as nat, |i: int| face_normal(nfs[i / 4].1))) by {
                assert forall|i: int| 0 <= i < j + 1 implies mesh.normals@[i] == face_normal(nfs[i / 4].1) by {
                    if i < 4 * n {
                        assert(i / 4 < n) by (nonlinear_arith) requires 0 <= i < 4 * n;
                        assert(nfs[i / 4] == fs[i / 4]);
                    } else {
                        assert(i / 4 == n) by (nonlinear_arith) requires 4 * n <= i < 4 * n + 4;
                    }
                }
            }
            assert(mesh.colors@ =~= Seq::new((j + 1) as nat, |i: int| nfs[i / 4].2)) by {
                assert forall|i: int| 0 <= i < j + 1 implies mesh.colors@[i] == nfs[i / 4].2 by {
                    if i < 4 * n {
                        assert(i / 4 < n) by (nonlinear_arith) requires 0 <= i < 4 * n;
                        assert(nfs[i / 4] == fs[i / 4]);
                    } else {
                        assert(i / 4 == n) by (nonlinear_arith) requires 4 * n <= i < 4 * n + 4;
                    }
                }
            }
        }
        k = k + 1;
    }
    let tri: [u32; 6] = [0, 1, 2, 0, 2, 3];
    let mut t: usize = 0;
    while t < 6
        invariant
            t <= 6,
            n == fs.len(),
            nfs == fs.push((p, f as int, c)),
            base == 4 * n,
            tri@ == seq![0u32, 1, 2, 0, 2, 3],
            4 * (n + 1) <= u32::MAX,
            mesh.indices@ == Seq::new((6 * n + t) as nat, |i: int| quad_index(i)),
            mesh.positions@ == Seq::new((4 * n + 4) as nat, |i: int| face_vertex(nfs, i)),
            mesh.normals@ == Seq::new((4 * n + 4) as nat, |i: int| face_normal(nfs[i / 4].1)),
            mesh.colors@ == Seq::new((4 * n + 4) as nat, |i: int| nfs[i / 4].2),
            seq_box(mesh.positions@, mesh.pos_min, mesh.pos_max),
        decreases 6 - t,
    {
        mesh.indices.push(base + tri[t]);
        proof {
            let j = 6 * n + t;
            assert(j / 6 == n && j % 6 == t) by (nonlinear_arith) requires j == 6 * n + t, 0 <= t < 6;
            assert(mesh.indices@ =~= Seq::new((j + 1) as nat, |i: int| quad_index(i)));
        }
        t = t + 1;
    }
    proof {
        assert(nfs.len() == n + 1);
        assert(4 * nfs.len() == 4 * n + 4);
        assert(6 * nfs.len() == 6 * n + 6);
    }
}

/// One quad per exposed face of every cell, in face order within each cell
/// (+x, -x, +y, -y, +z, -z); each quad's corners wind outwards, and its two
/// triangles are `(0, 1, 2)` and `(0, 2, 3)`.
pub fn build_mesh(grid: &VoxelGrid) -> (mesh: GlbMesh)
    requires
        grid.wf(),
        cells_interior(grid@),
        24 * grid@.dom().len() <= u32::MAX,
    ensures
        exists|cs: Seq<(IVec3, Color8)>|
            #[trigger] lists_cells(cs, grid@) && mesh_of(exposed_faces(grid@, cs), mesh) && exposed_faces(grid@, cs).len()
                <= 6 * grid@.dom().len(),
{
    let cells = grid.iter_occupied();
    let ghost cs = cells@;
    let ghost m = grid@;
    let mut mesh = GlbMesh {
        positions: Vec::new(),
        normals: Vec::new(),
        colors: Vec::new(),
        indices: Vec::new(),
        pos_min: IVec3::new(0, 0, 0),
        pos_max: IVec3::new(0, 0, 0),
    };
    proof {
        assert(mesh.positions@ =~= Seq::new(0, |i: int| face_vertex(exposed_faces(m, cs.take(0)), i)));
        assert(mesh.normals@ =~= Seq::new(0, |i: int| face_normal(exposed_faces(m, cs.take(0))[i / 4].1)));
        assert(mesh.colors@ =~= Seq::new(0, |i: int| exposed_faces(m, cs.take(0))[i / 4].2));
        assert(mesh.indices@ =~= Seq::new(0, |i: int| quad_index(i)));
    }
    let mut i: usize = 0;
    while i < cells.len()
        invariant
            i <= cs.len(),
            cs == cells@,
            m == grid@,
            grid.wf(),
            cells_interior(m),
            24 * m.dom().len() <= u32::MAX,
            cs.len() == m.dom().len(),
            forall|j: int| 0 <= j < cs.len() ==> #[trigger] map_get(m, cs[j].0) == Some(cs[j].1),
            mesh_of(exposed_faces(m, cs.take(i as int)), mesh),
            exposed_faces(m, cs.take(i as int)).len() <= 6 * i,
        decreases cs.len() - i,
    {
        let (p, c) = cells[i];
        proof {
            assert(map_get(m, cs[i as int].0) == Some(cs[i as int].1));
            assert(m.contains_key(p));
        }
        let ghost pre = exposed_faces(m, cs.take(i as int));
        let ghost keep = |f: int| !m.contains_key(across(f, p));
        let ghost ids = Seq::new(6, |f: int| f);
        let mut f: usize = 0;
        while f < 6
            invariant
                f <= 6,
                m == grid@,
                grid.wf(),
                i32::MIN < p.x < i32::MAX,
                i32::MIN < p.y < i32::MAX,
                i32::MIN < p.z < i32::MAX,
                pre.len() <= 6 * i,
                i < cs.len(),
                24 * cs.len() <= u32::MAX,
                keep == (|f: int| !m.contains_key(across(f, p))),
                ids == Seq::new(6, |f: int| f),
                mesh_of(pre + ids.take(f as int).filter(keep).map_values(|g: int| (p, g, c)), mesh),
                ids.take(f as int).filter(keep).len() <= f,
            decreases 6 - f,
        {
            let ghost done = ids.take(f as int).filter(keep);
            proof {
                assert(ids.take(f + 1) =~= ids.take(f as int).push(f as int));
                ids.take(f as int).lemma_filter_push(f as int, keep);
            }
            let nb = neighbour(p, f);
            if grid.get(nb).is_none() {
                proof {
                    assert(4 * ((pre + done.map_values(|g: int| (p, g, c))).len() + 1) <= u32::MAX);
                }
                push_face(&mut mesh, p, f, c, Ghost(pre + done.map_values(|g: int| (p, g, c))));
                proof {
                    assert((pre + done.map_values(|g: int| (p, g, c))).push((p, f as int, c)) =~= pre + done.push(
                        f as int,
                    ).map_values(|g: int| (p, g, c)));
                }
            }
            f = f + 1;
        }
        proof {
            assert(ids.take(6) =~= ids);
            let t = cs.take(i + 1);
            assert(t.drop_last() =~= cs.take(i as int));
            assert(t.last() == (p, c));
            assert(cell_faces(m, p, c) == ids.filter(keep).map_values(|g: int| (p, g, c)));
        }
        i = i + 1;
    }
    proof {
        assert(cs.take(cs.len() as int) =~= cs);
        assert forall|q: IVec3| #[trigger] m.contains_key(q) implies exists|j: int| 0 <= j < cs.len() && cs[j].0 == q by {}
        assert(lists_cells(cs, m));
    }
    mesh
}

// ---------------------------------------------------------------------------
// JSON document
// ---------------------------------------------------------------------------

/// The JSON document describing a mesh of `count` vertices and `idx_count`
/// indices, whose positions span `mn..=mx`, laid out in the buffer as
/// positions, normals, colors and indices (each padded to four bytes).
#[verifier::opaque]
pub open spec fn json_text(
    count: nat,
    idx_count: nat,
    mn: IVec3,
    mx: IVec3,
    pos_bytes: nat,
    normals_off: nat,
    normals_bytes: nat,
    colors_off: nat,
    colors_bytes: nat,
    indices_off: nat,
    indices_bytes: nat,
    bin_len: nat,
) -> Seq<char> {
    "{\"asset\":{\"version\":\"2.0\",\"generator\":\"Roxel\"},\"scene\":0,\"scenes\":[{\"nodes\":[0]}],\"nodes\":[{\"mesh\":0,\"name\":\"voxels\"}],\"meshes\":[{\"name\":\"voxels\",\"primitives\":[{\"attributes\":{\"POSITION\":0,\"NORMAL\":1,\"COLOR_0\":2},\"indices\":3,\"mode\":4}]}],\"accessors\":[{\"bufferView\":0,\"componentType\":5126,\"count\":"@ + nat_digits(count) + ",\"type\":\"VEC3\",\"min\":["@ + int_text(mn.x as int) + ","@ + int_text(mn.y as int) + ","@ + int_text(mn.z as int)
        + "],\"max\":["@ + int_text(mx.x as int) + ","@ + int_text(mx.y as int) + ","@ + int_text(mx.z as int) + "]},{\"bufferView\":1,\"componentType\":5126,\"count\":"@
        + nat_digits(count) + ",\"type\":\"VEC3\"},{\"bufferView\":2,\"componentType\":5121,\"count\":"@ + nat_digits(count) + ",\"type\":\"VEC4\",\"normalized\":true},{\"bufferView\":3,\"componentType\":5125,\"count\":"@ + nat_digits(idx_count) + ",\"type\":\"SCALAR\"}],\"bufferViews\":[{\"buffer\":0,\"byteOffset\":"@ + nat_digits(0)
        + ",\"byteLength\":"@ + nat_digits(pos_bytes) + ",\"target\":34962},{\"buffer\":0,\"byteOffset\":"@ + nat_digits(normals_off) + ",\"byteLength\":"@ + nat_digits(normals_bytes)
        + ",\"target\":34962},{\"buffer\":0,\"byteOffset\":"@ + nat_digits(colors_off) + ",\"byteLength\":"@ + nat_digits(colors_bytes) + ",\"target\":34962},{\"buffer\":0,\"byteOffset\":"@ + nat_digits(indices_off)
        + ",\"byteLength\":"@ + nat_digits(indices_bytes) + ",\"target\":34963}],\"buffers\":[{\"byteLength\":"@ + nat_digits(bin_len) + "}]}"@
}

/// The JSON text for `mesh` and a buffer of `bin_len` bytes.
pub open spec fn mesh_json(mesh: GlbMesh, bin_len: u32) -> Seq<char> {
    let pos_bytes = mesh.positions@.len() * 12;
    let normals_bytes = mesh.normals@.len() * 12;
    let colors_bytes = mesh.colors@.len() * 4;
    let indices_bytes = mesh.indices@.len() * 4;
    let normals_off = spec_align4(pos_bytes as int);
    let colors_off = normals_off + spec_align4(normals_bytes as int);
    let indices_off = colors_off + spec_align4(colors_bytes as int);
    json_text(
        mesh.positions@.len(),
        mesh.indices@.len(),
        mesh.pos_min,
        mesh.pos_max,
        pos_bytes,
        normals_off as nat,
        normals_bytes,
        colors_off as nat,
        colors_bytes,
        indices_off as nat,
        indices_bytes,
        bin_len as nat,
    )
}

/// The JSON text for `mesh` and a buffer of `bin_len` bytes, as a string.
#[verifier::spinoff_prover]
#[verifier::rlimit(60)]
fn json_string(mesh: &GlbMesh, bin_len: u32) -> (s: String)
    requires
        mesh.positions@.len() <= u32::MAX,
        mesh.normals@.len() <= u32::MAX,
        mesh.colors@.len() <= u32::MAX,
        mesh.indices@.len() <= u32::MAX,
    ensures
        s@ == mesh_json(*mesh, bin_len),
{
    let count = mesh.positions.len() as u64;
    let idx_count = mesh.indices.len() as u64;
    let pos_bytes = count * 12;
    let normals_bytes = mesh.normals.len() as u64 * 12;
    let colors_bytes = mesh.colors.len() as u64 * 4;
    let indices_bytes = idx_count * 4;
    let normals_off = ((pos_bytes + 3) / 4) * 4;
    let colors_off = normals_off + ((normals_bytes + 3) / 4) * 4;
    let indices_off = colors_off + ((colors_bytes + 3) / 4) * 4;
    let mut s = String::new();
    s.append("{\"asset\":{\"version\":\"2.0\",\"generator\":\"Roxel\"},\"scene\":0,\"scenes\":[{\"nodes\":[0]}],\"nodes\":[{\"mesh\":0,\"name\":\"voxels\"}],\"meshes\":[{\"name\":\"voxels\",\"primitives\":[{\"attributes\":{\"POSITION\":0,\"NORMAL\":1,\"COLOR_0\":2},\"indices\":3,\"mode\":4}]}],\"accessors\":[{\"bufferView\":0,\"componentType\":5126,\"count\":");
    push_nat64(&mut s, count);
    s.append(",\"type\":\"VEC3\",\"min\":[");
    push_int(&mut s, mesh.pos_min.x);
    s.append(",");
    push_int(&mut s, mesh.pos_min.y);
    s.append(",");
    push_int(&mut s, mesh.pos_min.z);
    s.append("],\"max\":[");
    push_int(&mut s, mesh.pos_max.x);
    s.append(",");
    push_int(&mut s, mesh.pos_max.y);
    s.append(",");
    push_int(&mut s, mesh.pos_max.z);
    s.append("]},{\"bufferView\":1,\"componentType\":5126,\"count\":");
    push_nat64(&mut s, count);
    s.append(",\"type\":\"VEC3\"},{\"bufferView\":2,\"componentType\":5121,\"count\":");
    push_nat64(&mut s, count);
    s.append(",\"type\":\"VEC4\",\"normalized\":true},{\"bufferView\":3,\"componentType\":5125,\"count\":");
    push_nat64(&mut s, idx_count);
    s.append(",\"type\":\"SCALAR\"}],\"bufferViews\":[{\"buffer\":0,\"byteOffset\":");
    push_nat64(&mut s, 0);
    s.append(",\"byteLength\":");
    push_nat64(&mut s, pos_bytes);
    s.append(",\"target\":34962},{\"buffer\":0,\"byteOffset\":");
    push_nat64(&mut s, normals_off);
    s.append(",\"byteLength\":");
    push_nat64(&mut s, normals_bytes);
    s.append(",\"target\":34962},{\"buffer\":0,\"byteOffset\":");
    push_nat64(&mut s, colors_off);
    s.append(",\"byteLength\":");
    push_nat64(&mut s, colors_bytes);
    s.append(",\"target\":34962},{\"buffer\":0,\"byteOffset\":");
    push_nat64(&mut s, indices_off);
    s.append(",\"byteLength\":");
    push_nat64(&mut s, indices_bytes);
    s.append(",\"target\":34963}],\"buffers\":[{\"byteLength\":");
    push_nat64(&mut s, bin_len as u64);
    s.append("}]}");
    proof {
        reveal(json_text);
        assert(s@ =~= mesh_json(*mesh, bin_len));
    }
    s
}

/// The JSON chunk for `mesh` and a buffer of `bin_len` bytes: the UTF-8
/// text, padded with spaces to a multiple of four bytes.
pub fn build_json(mesh: &GlbMesh, bin_len: u32) -> (r: Vec<u8>)
    requires
        mesh.positions@.len() <= u32::MAX,
        mesh.normals@.len() <= u32::MAX,
        mesh.colors@.len() <= u32::MAX,
        mesh.indices@.len() <= u32::MAX,
    ensures
        r@ == vstd::utf8::encode_utf8(mesh_json(*mesh, bin_len)) + Seq::new(
            pad_len(vstd::utf8::encode_utf8(mesh_json(*mesh, bin_len)).len() as int) as nat,
            |i: int| 0x20u8,
        ),
{
    let s = json_string(mesh, bin_len);
    let ghost t = vstd::utf8::encode_utf8(s@);
    let text = s.as_str().as_bytes();
    let mut bytes: Vec<u8> = Vec::new();
    push_all(&mut bytes, text);
    proof {
        assert(bytes@ =~= t);
    }
    pad_with(&mut bytes, 0x20u8);
    bytes
}

} // verus!
