//! Wavefront OBJ export: every exposed cell face becomes a quad. Each face
//! writes its normal (`vn`) and its four corners as vertices carrying the
//! cell's color (`v x y z r g b`, the extension Blender reads); the faces
//! (`f a//n b//n c//n d//n`) follow at the end. Writing the text to a file is
//! the caller's.

use crate::color::{dec_char, int_text, nat_digits, push_int, push_nat64};
use crate::geom::{Color8, IVec3};
use crate::gltf::{build_mesh, cells_interior, exposed_faces, face_normal, face_vertex, mesh_of};
use crate::grid::VoxelGrid;
use crate::vox::lists_cells;
use vstd::prelude::*;

verus! {

/// A color channel as `c / 255` with three decimals, rounded to nearest
/// (no channel value falls halfway between two).
pub open spec fn unit_text(c: u8) -> Seq<char> {
    let t = (2000 * c + 255) / 510;
    seq![dec_char(t / 1000), '.', dec_char((t / 100) % 10), dec_char((t / 10) % 10), dec_char(t % 10)]
}

/// `v x y z r g b`: a corner and the color of its cell.
pub open spec fn vertex_line(p: IVec3, c: Color8) -> Seq<char> {
    seq!['v', ' '] + int_text(p.x as int) + seq![' '] + int_text(p.y as int) + seq![' '] + int_text(p.z as int)
        + seq![' '] + unit_text(c[0]) + seq![' '] + unit_text(c[1]) + seq![' '] + unit_text(c[2]) + seq!['\n']
}

/// `vn x y z`: a face normal.
pub open spec fn normal_line(n: IVec3) -> Seq<char> {
    seq!['v', 'n', ' '] + int_text(n.x as int) + seq![' '] + int_text(n.y as int) + seq![' '] + int_text(n.z as int)
        + seq!['\n']
}

/// One corner reference `v//n` of an `f` line (indices count from one).
pub open spec fn corner_ref(v: nat, n: nat) -> Seq<char> {
    nat_digits(v) + seq!['/', '/'] + nat_digits(n)
}

/// The `f` line of face `j`: its four vertices and its normal.
pub open spec fn face_line(j: nat) -> Seq<char> {
    seq!['f', ' '] + corner_ref(4 * j + 1, j + 1) + seq![' '] + corner_ref(4 * j + 2, j + 1) + seq![' ']
        + corner_ref(4 * j + 3, j + 1) + seq![' '] + corner_ref(4 * j + 4, j + 1) + seq!['\n']
}

/// A face's normal line, then its four corners with the cell's color.
pub open spec fn block_of(n: IVec3, p0: IVec3, p1: IVec3, p2: IVec3, p3: IVec3, c: Color8) -> Seq<char> {
    normal_line(n) + vertex_line(p0, c) + vertex_line(p1, c) + vertex_line(p2, c) + vertex_line(p3, c)
}

/// The normal and the four vertices of face `j` of `fs`.
pub open spec fn face_block(fs: Seq<(IVec3, int, Color8)>, j: int) -> Seq<char> {
    block_of(
        face_normal(fs[j].1),
        face_vertex(fs, 4 * j),
        face_vertex(fs, 4 * j + 1),
        face_vertex(fs, 4 * j + 2),
        face_vertex(fs, 4 * j + 3),
        fs[j].2,
    )
}

/// The blocks of the first `n` faces.
pub open spec fn blocks_text(fs: Seq<(IVec3, int, Color8)>, n: int) -> Seq<char>
    decreases n,
{
    if n <= 0 {
        Seq::empty()
    } else {
        blocks_text(fs, n - 1) + face_block(fs, n - 1)
    }
}

/// The `f` lines of the first `n` faces.
pub open spec fn face_lines(n: int) -> Seq<char>
    decreases n,
{
    if n <= 0 {
        Seq::empty()
    } else {
        face_lines(n - 1) + face_line((n - 1) as nat)
    }
}

/// The first line of the file.
pub open spec fn obj_header() -> Seq<char> {
    "# Exported by Roxel\n"@
}

/// The OBJ text of the faces `fs`.
pub open spec fn obj_text(fs: Seq<(IVec3, int, Color8)>) -> Seq<char> {
    obj_header() + blocks_text(fs, fs.len() as int) + face_lines(fs.len() as int)
}

fn push_unit(s: &mut String, c: u8)
    ensures
        final(s)@ == old(s)@ + unit_text(c),
{
    let t: u32 = (2000 * c as u32 + 255) / 510;
    assert(t <= 1000);
    push_nat64(s, (t / 1000) as u64);
    proof {
        reveal_strlit(".");
    }
    s.append(".");
    push_nat64(s, ((t / 100) % 10) as u64);
    push_nat64(s, ((t / 10) % 10) as u64);
    push_nat64(s, (t % 10) as u64);
    proof {
        assert(nat_digits((t / 1000) as nat) == seq![dec_char((t / 1000) as int)]);
        assert(nat_digits(((t / 100) % 10) as nat) == seq![dec_char(((t / 100) % 10) as int)]);
        assert(nat_digits(((t / 10) % 10) as nat) == seq![dec_char(((t / 10) % 10) as int)]);
        assert(nat_digits((t % 10) as nat) == seq![dec_char((t % 10) as int)]);
        assert(s@ =~= old(s)@ + unit_text(c));
    }
}

fn push_space(s: &mut String)
    ensures
        final(s)@ == old(s)@ + seq![' '],
{
    proof {
        reveal_strlit(" ");
    }
    s.append(" ");
}

fn push_newline(s: &mut String)
    ensures
        final(s)@ == old(s)@ + seq!['\n'],
{
    proof {
        reveal_strlit("\n");
    }
    s.append("\n");
}

fn push_vertex(s: &mut String, p: IVec3, c: Color8)
    ensures
        final(s)@ == old(s)@ + vertex_line(p, c),
{
    proof {
        reveal_strlit("v ");
    }
    s.append("v ");
    push_int(s, p.x);
    push_space(s);
    push_int(s, p.y);
    push_space(s);
    push_int(s, p.z);
    push_space(s);
    push_unit(s, c[0]);
    push_space(s);
    push_unit(s, c[1]);
    push_space(s);
    push_unit(s, c[2]);
    push_newline(s);
    proof {
        assert(s@ =~= old(s)@ + vertex_line(p, c));
    }
}

fn push_normal(s: &mut String, n: IVec3)
    ensures
        final(s)@ == old(s)@ + normal_line(n),
{
    proof {
        reveal_strlit("vn ");
    }
    s.append("vn ");
    push_int(s, n.x);
    push_space(s);
    push_int(s, n.y);
    push_space(s);
    push_int(s, n.z);
    push_newline(s);
    proof {
        assert(s@ =~= old(s)@ + normal_line(n));
    }
}

fn push_corner_ref(s: &mut String, v: u64, n: u64)
    ensures
        final(s)@ == old(s)@ + corner_ref(v as nat, n as nat),
{
    push_nat64(s, v);
    proof {
        reveal_strlit("//");
    }
    s.append("//");
    push_nat64(s, n);
    proof {
        assert(s@ =~= old(s)@ + corner_ref(v as nat, n as nat));
    }
}

fn push_face_line(s: &mut String, j: u64)
    requires
        4 * j + 4 <= u64::MAX,
    ensures
        final(s)@ == old(s)@ + face_line(j as nat),
{
    proof {
        reveal_strlit("f ");
    }
    s.append("f ");
    push_corner_ref(s, 4 * j + 1, j + 1);
    push_space(s);
    push_corner_ref(s, 4 * j + 2, j + 1);
    push_space(s);
    push_corner_ref(s, 4 * j + 3, j + 1);
    push_space(s);
    push_corner_ref(s, 4 * j + 4, j + 1);
    push_newline(s);
    proof {
        assert(s@ =~= old(s)@ + face_line(j as nat));
    }
}

/// What the mesh holds for face `j`: its normal, color and corners.
proof fn lemma_mesh_face(fs: Seq<(IVec3, int, Color8)>, mesh: crate::gltf::GlbMesh, j: int)
    requires
        mesh_of(fs, mesh),
        0 <= j < fs.len(),
    ensures
        mesh.normals@[4 * j] == face_normal(fs[j].1),
        mesh.colors@[4 * j] == fs[j].2,
        mesh.positions@[4 * j] == face_vertex(fs, 4 * j),
        mesh.positions@[4 * j + 1] == face_vertex(fs, 4 * j + 1),
        mesh.positions@[4 * j + 2] == face_vertex(fs, 4 * j + 2),
        mesh.positions@[4 * j + 3] == face_vertex(fs, 4 * j + 3),
        4 * j + 3 < mesh.positions@.len(),
        4 * j < mesh.normals@.len(),
        4 * j < mesh.colors@.len(),
{
    let b = 4 * j;
    assert(b / 4 == j) by (nonlinear_arith)
        requires
            b == 4 * j,
    ;
}

/// Appends a face's normal line and its four corners.
fn push_block(s: &mut String, n: IVec3, p0: IVec3, p1: IVec3, p2: IVec3, p3: IVec3, c: Color8)
    ensures
        final(s)@ == old(s)@ + block_of(n, p0, p1, p2, p3, c),
{
    push_normal(s, n);
    push_vertex(s, p0, c);
    push_vertex(s, p1, c);
    push_vertex(s, p2, c);
    push_vertex(s, p3, c);
    proof {
        assert(s@ =~= old(s)@ + block_of(n, p0, p1, p2, p3, c));
    }
}

/// The OBJ text of the grid: the header, then for each exposed face (cell
/// by cell, in face order +x, -x, +y, -y, +z, -z within a cell) its normal
/// and its four corners with the cell's color, then one `f` line per face.
#[verifier::spinoff_prover]
#[verifier::rlimit(60)]
pub fn export(grid: &VoxelGrid) -> (text: String)
    requires
        grid.wf(),
        cells_interior(grid@),
        24 * grid@.dom().len() <= u32::MAX,
    ensures
        exists|cs: Seq<(IVec3, Color8)>| #[trigger] lists_cells(cs, grid@) && text@ == obj_text(exposed_faces(grid@, cs)),
{
    let mesh = build_mesh(grid);
    let ghost cs = choose|cs: Seq<(IVec3, Color8)>|
        #[trigger] lists_cells(cs, grid@) && mesh_of(exposed_faces(grid@, cs), mesh) && exposed_faces(grid@, cs).len()
            <= 6 * grid@.dom().len();
    let ghost fs = exposed_faces(grid@, cs);
    let n = mesh.normals.len() / 4;
    proof {
        assert(mesh.positions@.len() == 4 * fs.len());
        assert(n == fs.len());
        assert(fs.len() <= u32::MAX);
    }
    let mut s = String::new();
    proof {
        reveal_strlit("# Exported by Roxel\n");
    }
    s.append("# Exported by Roxel\n");
    let mut j: usize = 0;
    while j < n
        invariant
            mesh_of(fs, mesh),
            n == fs.len(),
            fs.len() <= u32::MAX,
            j <= n,
            s@ == obj_header() + blocks_text(fs, j as int),
        decreases n - j,
    {
        proof {
            lemma_mesh_face(fs, mesh, j as int);
        }
        let ghost before = s@;
        let b = 4 * j;
        push_block(
            &mut s,
            mesh.normals[b],
            mesh.positions[b],
            mesh.positions[b + 1],
            mesh.positions[b + 2],
            mesh.positions[b + 3],
            mesh.colors[b],
        );
        proof {
            assert(face_block(fs, j as int) == block_of(
                mesh.normals@[b as int],
                mesh.positions@[b as int],
                mesh.positions@[b + 1],
                mesh.positions@[b + 2],
                mesh.positions@[b + 3],
                mesh.colors@[b as int],
            ));
            assert(blocks_text(fs, j + 1) == blocks_text(fs, j as int) + face_block(fs, j as int));
            assert(s@ =~= obj_header() + blocks_text(fs, j + 1));
        }
        j = j + 1;
    }
    let mut k: u64 = 0;
    while k < n as u64
        invariant
            n == fs.len(),
            n <= u32::MAX,
            k <= n,
            s@ == obj_header() + blocks_text(fs, n as int) + face_lines(k as int),
        decreases n - k,
    {
        push_face_line(&mut s, k);
        proof {
            assert(s@ =~= obj_header() + blocks_text(fs, n as int) + face_lines(k + 1));
        }
        k = k + 1;
    }
    proof {
        assert(lists_cells(cs, grid@));
    }
    s
}

} // verus!
