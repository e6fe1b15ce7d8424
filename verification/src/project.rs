//! `.roxel` project files: the format version, the model's size, every
//! occupied cell with its color, and an optional base64-encoded PNG preview. The text encoding (RON) is the
//! caller's; this module decides what goes in and what comes out.

use crate::geom::{Color8, IVec3};
use crate::grid::{grid_set, is_bounding_box, map_get, VoxelGrid};
use crate::resample::{apply_writes, lemma_apply_distinct, writes_block};
use base64::engine::general_purpose::STANDARD;
use base64::Engine;
use vstd::prelude::*;

verus! {

/// One stored cell: its coordinates and color.
pub type StoredVoxel = ([i32; 3], Color8);

/// The project format version this library writes.
pub const PROJECT_VERSION: u32 = 1;

/// What a project file holds.
pub struct ProjectFile {
    /// The format version.
    pub version: u32,
    /// Width, height and depth of the model's bounding box, in cells.
    pub size: [u32; 3],
    pub voxels: Vec<StoredVoxel>,
    /// Base64-encoded PNG preview of the model; absent in older files.
    pub preview: Option<String>,
}

/// The cell a stored voxel names.
pub open spec fn voxel_cell(v: StoredVoxel) -> IVec3 {
    IVec3 { x: v.0[0], y: v.0[1], z: v.0[2] }
}

/// The stored voxels as cell writes.
pub open spec fn voxel_writes(vs: Seq<StoredVoxel>) -> Seq<(IVec3, Color8)> {
    vs.map_values(|v: StoredVoxel| (voxel_cell(v), v.1))
}

/// `vs` lists every cell of `m` exactly once, with its color.
pub open spec fn stores_cells(vs: Seq<StoredVoxel>, m: Map<IVec3, Color8>) -> bool {
    &&& forall|i: int, j: int| 0 <= i < j < vs.len() ==> voxel_cell(#[trigger] vs[i]) != voxel_cell(#[trigger] vs[j])
    &&& forall|i: int| 0 <= i < vs.len() ==> #[trigger] map_get(m, voxel_cell(vs[i])) == Some(vs[i].1)
    &&& forall|p: IVec3| #[trigger] m.contains_key(p) ==> exists|i: int| 0 <= i < vs.len() && voxel_cell(vs[i]) == p
}

/// The base64 digit for `v < 64` in the standard (RFC 4648) alphabet.
pub open spec fn b64_digit(v: int) -> char {
    if v < 26 {
        ('A' as int + v) as char
    } else if v < 52 {
        ('a' as int + (v - 26)) as char
    } else if v < 62 {
        ('0' as int + (v - 52)) as char
    } else if v == 62 {
        '+'
    } else {
        '/'
    }
}

/// Standard base64 with padding (RFC 4648): each three bytes become four
/// digits of six bits each; a final one or two bytes become two or three
/// digits and `=` up to four.
pub open spec fn base64_standard(b: Seq<u8>) -> Seq<char>
    decreases b.len(),
{
    if b.len() == 0 {
        Seq::empty()
    } else if b.len() == 1 {
        let n = b[0] * 65536;
        seq![b64_digit(n / 262144), b64_digit((n / 4096) % 64), '=', '=']
    } else if b.len() == 2 {
        let n = b[0] * 65536 + b[1] * 256;
        seq![b64_digit(n / 262144), b64_digit((n / 4096) % 64), b64_digit((n / 64) % 64), '=']
    } else {
        let n = b[0] * 65536 + b[1] * 256 + b[2];
        seq![b64_digit(n / 262144), b64_digit((n / 4096) % 64), b64_digit((n / 64) % 64), b64_digit(n % 64)]
            + base64_standard(b.skip(3))
    }
}

/// `base64::engine::general_purpose::STANDARD.encode`: the standard engine
/// uses the RFC 4648 alphabet with padding, so the text is
/// `base64_standard` of the bytes. The engine panics when the encoded length
/// overflows `usize`, which `requires` leaves out.
#[verifier::external_body]
fn base64_encode(bytes: &[u8]) -> (s: String)
    requires
        4 * ((bytes@.len() + 2) / 3) <= usize::MAX,
    ensures
        s@ == base64_standard(bytes@),
{
    STANDARD.encode(bytes)
}

/// The size a project file records for the cells of `m`: the extents of
/// their bounding box (as `u32`), zero for no cells.
pub open spec fn size_ok(m: Map<IVec3, Color8>, size: [u32; 3]) -> bool {
    if m.dom().len() == 0 {
        size@ == seq![0u32, 0u32, 0u32]
    } else {
        exists|mn: IVec3, mx: IVec3|
            is_bounding_box(m.dom(), mn, mx) && size@ == seq![
                (mx.x - mn.x + 1) as u32,
                (mx.y - mn.y + 1) as u32,
                (mx.z - mn.z + 1) as u32,
            ]
    }
}

fn model_size(grid: &VoxelGrid) -> (size: [u32; 3])
    requires
        grid.wf(),
    ensures
        size_ok(grid@, size),
{
    match grid.bounding_box() {
        None => [0, 0, 0],
        Some((mn, mx)) => {
            let size = [
                (mx.x as i64 - mn.x as i64 + 1) as u32,
                (mx.y as i64 - mn.y as i64 + 1) as u32,
                (mx.z as i64 - mn.z as i64 + 1) as u32,
            ];
            proof {
                assert(size@ =~= seq![
                    (mx.x - mn.x + 1) as u32,
                    (mx.y - mn.y + 1) as u32,
                    (mx.z - mn.z + 1) as u32,
                ]);
            }
            size
        },
    }
}

fn stored_voxels(grid: &VoxelGrid) -> (vs: Vec<StoredVoxel>)
    requires
        grid.wf(),
    ensures
        stores_cells(vs@, grid@),
        vs@.len() == grid@.dom().len(),
{
    let cells = grid.iter_occupied();
    let mut vs: Vec<StoredVoxel> = Vec::new();
    let mut i: usize = 0;
    while i < cells.len()
        invariant
            i <= cells@.len(),
            vs@.len() == i,
            forall|j: int| 0 <= j < i ==> voxel_cell(#[trigger] vs@[j]) == cells@[j].0 && vs@[j].1 == cells@[j].1,
        decreases cells.len() - i,
    {
        let (p, c) = cells[i];
        vs.push(([p.x, p.y, p.z], c));
        i = i + 1;
    }
    proof {
        assert forall|a: int, b: int| 0 <= a < b < vs@.len() implies voxel_cell(#[trigger] vs@[a]) != voxel_cell(
            #[trigger] vs@[b],
        ) by {
            assert(cells@[a].0 != cells@[b].0);
        }
        assert forall|p: IVec3| #[trigger] grid@.contains_key(p) implies exists|j: int|
            0 <= j < vs@.len() && voxel_cell(vs@[j]) == p by {
            let j = choose|j: int| 0 <= j < cells@.len() && cells@[j].0 == p;
            assert(voxel_cell(vs@[j]) == p);
        }
    }
    vs
}

/// The project file for `grid`: the current version, the model's size,
/// every occupied cell, no preview.
pub fn save(grid: &VoxelGrid) -> (pf: ProjectFile)
    requires
        grid.wf(),
    ensures
        pf.version == PROJECT_VERSION,
        size_ok(grid@, pf.size),
        stores_cells(pf.voxels@, grid@),
        pf.voxels@.len() == grid@.dom().len(),
        pf.preview is None,
{
    ProjectFile { version: PROJECT_VERSION, size: model_size(grid), voxels: stored_voxels(grid), preview: None }
}

/// The project file for `grid` with the PNG image `png` as its preview.
pub fn save_with_preview(grid: &VoxelGrid, png: &[u8]) -> (pf: ProjectFile)
    requires
        grid.wf(),
        4 * ((png@.len() + 2) / 3) <= usize::MAX,
    ensures
        pf.version == PROJECT_VERSION,
        size_ok(grid@, pf.size),
        stores_cells(pf.voxels@, grid@),
        pf.voxels@.len() == grid@.dom().len(),
        pf.preview matches Some(s) && s@ == base64_standard(png@),
{
    ProjectFile {
        version: PROJECT_VERSION,
        size: model_size(grid),
        voxels: stored_voxels(grid),
        preview: Some(base64_encode(png)),
    }
}

/// Replaces the contents of `grid` with the cells of a project file, written
/// in order; the version and size are informational and not read (a cell listed twice ends with its last color; cells below the
/// floor are dropped).
pub fn load(pf: &ProjectFile, grid: &mut VoxelGrid)
    requires
        old(grid).wf(),
        pf.voxels@.len() < u32::MAX,
    ensures
        final(grid).wf(),
        final(grid)@ == apply_writes(Map::empty(), voxel_writes(pf.voxels@)),
{
    grid.clear();
    let ghost ws = voxel_writes(pf.voxels@);
    let mut i: usize = 0;
    while i < pf.voxels.len()
        invariant
            i <= pf.voxels@.len(),
            pf.voxels@.len() < u32::MAX,
            ws == voxel_writes(pf.voxels@),
            grid.wf(),
            grid@ == apply_writes(Map::empty(), ws.take(i as int)),
            grid@.dom().finite(),
            grid@.dom().len() <= i,
        decreases pf.voxels.len() - i,
    {
        let (xyz, c) = pf.voxels[i];
        let p = IVec3::new(xyz[0], xyz[1], xyz[2]);
        proof {
            let t = ws.take(i + 1);
            assert(t.drop_last() =~= ws.take(i as int));
            assert(t.last() == (p, c));
            crate::history::lemma_grid_set_len(grid@, p, Some(c));
        }
        grid.set(p, Some(c));
        i = i + 1;
    }
    proof {
        assert(ws.take(ws.len() as int) =~= ws);
    }
}

/// Loading what was saved gives back the grid: the cells of a project file
/// saved from `m`, written into an emptied grid, are exactly `m`.
pub proof fn law_project_roundtrip(m: Map<IVec3, Color8>, vs: Seq<StoredVoxel>)
    requires
        stores_cells(vs, m),
        forall|p: IVec3| #[trigger] m.contains_key(p) ==> p.y >= 0,
    ensures
        apply_writes(Map::empty(), voxel_writes(vs)) == m,
{
    let ws = voxel_writes(vs);
    assert forall|i: int| 0 <= i < ws.len() implies #[trigger] ws[i] == (voxel_cell(vs[i]), vs[i].1) by {}
    assert forall|i: int, j: int| 0 <= i < j < ws.len() implies (#[trigger] ws[i]).0 != (#[trigger] ws[j]).0 by {
        assert(voxel_cell(vs[i]) != voxel_cell(vs[j]));
    }
    assert forall|i: int| 0 <= i < ws.len() implies (#[trigger] ws[i]).0.y >= 0 by {
        assert(map_get(m, voxel_cell(vs[i])) == Some(vs[i].1));
    }
    lemma_apply_distinct(ws);
    let r = apply_writes(Map::empty(), ws);
    assert forall|p: IVec3| #[trigger] r.contains_key(p) <==> m.contains_key(p) by {
        if m.contains_key(p) {
            let i = choose|i: int| 0 <= i < vs.len() && voxel_cell(vs[i]) == p;
            assert(ws[i].0 == p);
            assert(writes_block(ws, p));
        }
        if r.contains_key(p) {
            let i = choose|i: int| 0 <= i < ws.len() && (#[trigger] ws[i]).0 == p;
            assert(map_get(m, voxel_cell(vs[i])) == Some(vs[i].1));
        }
    }
    assert forall|p: IVec3| #[trigger] r.contains_key(p) implies r[p] == m[p] by {
        let i = choose|i: int| 0 <= i < ws.len() && (#[trigger] ws[i]).0 == p;
        assert(r[ws[i].0] == ws[i].1);
        assert(map_get(m, voxel_cell(vs[i])) == Some(vs[i].1));
    }
    assert(r =~= m);
}

} // verus!
