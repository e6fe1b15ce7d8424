//! MagicaVoxel `.vox` files, read and written by the `dot_vox` crate.
//!
//! MagicaVoxel is Z-up: grid cell `(x, y, z)` is `.vox` voxel `(x, z, y)`.
//! `.vox` coordinates are bytes, so a model spans at most 256 cells per
//! axis; on export the whole model is shifted so its minimum corner is the
//! origin.

use crate::bytes::le_bytes;
use crate::geom::{Color8, IVec3};
use crate::grid::{changes_marked, grid_set, is_bounding_box, lemma_bounding_box_unique, le3, lemma_no_change_marked, lemma_write_marks, map_get, VoxelGrid};
use crate::history::lemma_grid_set_len;
use crate::tools::{dedup, first_at, position};
use dot_vox::{Color as DvColor, DotVoxData, Model, Size, Voxel};
use vstd::prelude::*;

verus! {

/// Largest extent of a model along one axis.
pub const VOX_MAX_EXTENT: i64 = 256;

/// Most colors a palette holds before new colors fall back to the nearest
/// one (index 255 is left out).
pub const VOX_PALETTE_COLORS: usize = 255;

/// One `.vox` voxel: position and palette index.
pub type VoxVoxel = (u8, u8, u8, u8);

/// A single-model `.vox` scene as plain values.
pub struct VoxModel {
    /// Extent along the `.vox` x, y and z axes.
    pub size: (u32, u32, u32),
    pub voxels: Vec<VoxVoxel>,
    /// 256 RGBA entries.
    pub palette: Vec<[u8; 4]>,
}

/// What a `.vox` file holds, as plain values: each model's voxels, and the
/// palette.
pub struct VoxData {
    pub models: Vec<Vec<VoxVoxel>>,
    pub palette: Vec<[u8; 4]>,
}

impl VoxData {
    pub open spec fn models_view(&self) -> Seq<Seq<VoxVoxel>> {
        self.models@.map_values(|m: Vec<VoxVoxel>| m@)
    }
}

/// Why a `.vox` export or import failed.
#[derive(Clone, Copy, Debug, PartialEq, Eq, Structural)]
pub enum VoxError {
    /// Nothing to export: the grid is empty.
    Empty,
    /// The scene is wider than 256 cells along some axis; the extents are
    /// along the grid's x, y and z.
    TooLarge { x: i64, y: i64, z: i64 },
    /// The `.vox` writer failed.
    Write,
    /// Not a valid `.vox` file.
    Invalid,
    /// The file holds no model.
    NoModels,
    /// The grid cannot take that many more cells.
    Full,
}

// ---------------------------------------------------------------------------
// Outside calls
// ---------------------------------------------------------------------------

/// What `dot_vox::load_bytes` makes of `bytes`: each model's voxels as
/// `(x, y, z, i)` and the palette as RGBA, or `None` for an invalid file.
pub uninterp spec fn vox_parsed(bytes: Seq<u8>) -> Option<(Seq<Seq<VoxVoxel>>, Seq<[u8; 4]>)>;

/// A `.vox` chunk: its four-byte id, the content's length, the children's
/// length, then the content (the children follow it).
pub open spec fn vox_chunk(id: Seq<u8>, content: Seq<u8>, children: nat) -> Seq<u8> {
    id + le_bytes(content.len() as u32) + le_bytes(children as u32) + content
}

/// The voxels as the `XYZI` chunk stores them: `x, y, z` and the palette
/// index counted from one.
pub open spec fn xyzi_body(vs: Seq<VoxVoxel>) -> Seq<u8>
    decreases vs.len(),
{
    if vs.len() == 0 {
        Seq::empty()
    } else {
        let v = vs.last();
        xyzi_body(vs.drop_last()) + seq![v.0, v.1, v.2, (v.3 + 1) as u8]
    }
}

/// The palette as the `RGBA` chunk stores it.
pub open spec fn rgba_body(pal: Seq<[u8; 4]>) -> Seq<u8>
    decreases pal.len(),
{
    if pal.len() == 0 {
        Seq::empty()
    } else {
        let c = pal.last();
        rgba_body(pal.drop_last()) + seq![c[0], c[1], c[2], c[3]]
    }
}

/// The bytes `DotVoxData::write_vox` writes for a scene of the given
/// version with one model of the given size and voxels, the given palette,
/// and no materials, scene nodes or layers: `VOX `, the version, and a
/// `MAIN` chunk whose children are the `SIZE`, `XYZI` and `RGBA` chunks (the
/// index map is not written).
pub open spec fn vox_written(version: u32, size: (u32, u32, u32), voxels: Seq<VoxVoxel>, palette: Seq<[u8; 4]>) -> Seq<u8> {
    let children = vox_chunk(seq![83u8, 73, 90, 69], le_bytes(size.0) + le_bytes(size.1) + le_bytes(size.2), 0)
        + vox_chunk(seq![88u8, 89, 90, 73], le_bytes(voxels.len() as u32) + xyzi_body(voxels), 0) + vox_chunk(
        seq![82u8, 71, 66, 65],
        rgba_body(palette),
        0,
    );
    seq![86u8, 79, 88, 32] + le_bytes(version) + vox_chunk(seq![77u8, 65, 73, 78], Seq::empty(), children.len()) + children
}

/// Calls `dot_vox::load_bytes` and converts the result to plain values. The
/// contract claims only that the result is a function of the bytes.
#[verifier::external_body]
fn load_vox(bytes: &[u8]) -> (r: Option<VoxData>)
    ensures
        r is None <==> vox_parsed(bytes@) is None,
        r matches Some(d) ==> vox_parsed(bytes@) == Some((d.models_view(), d.palette@)),
{
    match dot_vox::load_bytes(bytes) {
        Ok(d) => Some(
            VoxData {
                models: d.models.iter().map(|m| m.voxels.iter().map(|v| (v.x, v.y, v.z, v.i)).collect()).collect(),
                palette: d.palette.iter().map(|c| [c.r, c.g, c.b, c.a]).collect(),
            },
        ),
        Err(_) => None,
    }
}

/// Builds a `dot_vox::DotVoxData` for one model (the library's model has no
/// materials, scene nodes or layers, so those lists are empty) and calls
/// `write_vox` into a byte buffer. The contract claims that the write succeeds (every write of
/// `write_vox` goes to a `Vec<u8>`, which takes any bytes) and that the
/// bytes are the layout `vox_written` gives, which is what `write_vox`,
/// `write_models`, `write_palette_chunk` and `write_chunk` emit for a scene
/// with no scene nodes, materials or layers.
/// `write_vox` adds one to each palette index, so index 255 is refused.
#[verifier::external_body]
fn write_vox(version: u32, index_map: &Vec<u8>, m: &VoxModel) -> (r: Option<Vec<u8>>)
    requires
        forall|i: int| 0 <= i < m.voxels@.len() ==> (#[trigger] m.voxels@[i]).3 < 255,
    ensures
        r is Some,
        r matches Some(b) ==> b@ == vox_written(version, m.size, m.voxels@, m.palette@),
{
    let voxels = m.voxels.iter().map(|&(x, y, z, i)| Voxel { x, y, z, i }).collect();
    let (x, y, z) = m.size;
    let palette = m.palette.iter().map(|&[r, g, b, a]| DvColor { r, g, b, a }).collect();
    let models = vec![Model { size: Size { x, y, z }, voxels }];
    let data = DotVoxData { version, index_map: index_map.clone(), models, palette, materials: vec![], scenes: vec![], layers: vec![] };
    let mut out = Vec::new();
    data.write_vox(&mut out).ok().map(|_| out)
}

// ---------------------------------------------------------------------------
// Export
// ---------------------------------------------------------------------------

/// The cells have a bounding box no wider than `VOX_MAX_EXTENT` along any
/// axis (so there is at least one cell).
pub open spec fn fits_vox(s: Set<IVec3>) -> bool {
    exists|mn: IVec3, mx: IVec3|
        #![trigger is_bounding_box(s, mn, mx)]
        is_bounding_box(s, mn, mx) && mx.x - mn.x < VOX_MAX_EXTENT && mx.y - mn.y < VOX_MAX_EXTENT
            && mx.z - mn.z < VOX_MAX_EXTENT
}

/// The cells' bounding box is wider than `VOX_MAX_EXTENT` along some axis.
pub open spec fn too_wide_for_vox(s: Set<IVec3>) -> bool {
    exists|mn: IVec3, mx: IVec3|
        #![trigger is_bounding_box(s, mn, mx)]
        is_bounding_box(s, mn, mx) && (mx.x - mn.x + 1 > VOX_MAX_EXTENT || mx.y - mn.y + 1 > VOX_MAX_EXTENT
            || mx.z - mn.z + 1 > VOX_MAX_EXTENT)
}

proof fn lemma_fits_not_too_wide(s: Set<IVec3>)
    ensures
        !(fits_vox(s) && too_wide_for_vox(s)),
{
    if fits_vox(s) && too_wide_for_vox(s) {
        let (a, b) = choose|mn: IVec3, mx: IVec3|
            #![trigger is_bounding_box(s, mn, mx)]
            is_bounding_box(s, mn, mx) && mx.x - mn.x < VOX_MAX_EXTENT && mx.y - mn.y < VOX_MAX_EXTENT
                && mx.z - mn.z < VOX_MAX_EXTENT;
        let (c, d) = choose|mn: IVec3, mx: IVec3|
            #![trigger is_bounding_box(s, mn, mx)]
            is_bounding_box(s, mn, mx) && (mx.x - mn.x + 1 > VOX_MAX_EXTENT || mx.y - mn.y + 1 > VOX_MAX_EXTENT
                || mx.z - mn.z + 1 > VOX_MAX_EXTENT);
        lemma_bounding_box_unique(s, a, b, c, d);
    }
}

proof fn lemma_empty_has_no_box(s: Set<IVec3>)
    requires
        s.finite(),
        s.len() == 0,
    ensures
        !fits_vox(s),
        !too_wide_for_vox(s),
{
    assert(s =~= Set::empty());
}

/// The `.vox` format version written.
pub const VOX_VERSION: u32 = 150;

/// The palette index map that leaves every index where it is.
pub fn identity_index_map() -> (r: Vec<u8>)
    ensures
        r@.len() == 256,
        forall|i: int| 0 <= i < 256 ==> r@[i] == i,
{
    let mut r: Vec<u8> = Vec::new();
    let mut i: u32 = 0;
    while i < 256
        invariant
            i <= 256,
            r@.len() == i,
            forall|k: int| 0 <= k < i ==> r@[k] == k,
        decreases 256 - i,
    {
        r.push(i as u8);
        i = i + 1;
    }
    r
}

/// Squared RGB distance between a palette entry and a color.
pub open spec fn rgb_dist(p: [u8; 4], c: Color8) -> int {
    (p[0] - c[0]) * (p[0] - c[0]) + (p[1] - c[1]) * (p[1] - c[1]) + (p[2] - c[2]) * (p[2] - c[2])
}

/// `k` is the first index of a palette entry nearest to `c`.
pub open spec fn is_nearest(pal: Seq<Color8>, c: Color8, k: int) -> bool {
    &&& 0 <= k < pal.len()
    &&& forall|j: int| 0 <= j < pal.len() ==> rgb_dist(#[trigger] pal[j], c) >= rgb_dist(pal[k], c)
    &&& forall|j: int| 0 <= j < k ==> rgb_dist(#[trigger] pal[j], c) > rgb_dist(pal[k], c)
}

/// The palette colors: distinct colors in order of first appearance, at
/// most `VOX_PALETTE_COLORS` of them.
pub open spec fn palette_keys(colors: Seq<Color8>) -> Seq<Color8> {
    let d = dedup(colors);
    if d.len() > VOX_PALETTE_COLORS {
        d.take(VOX_PALETTE_COLORS as int)
    } else {
        d
    }
}

/// Palette index of color `c` given the palette so far: its position when
/// it has one, else the nearest entry.
pub open spec fn palette_index(keys: Seq<Color8>, c: Color8, k: int) -> bool {
    if keys.contains(c) {
        first_at(keys, c, k)
    } else {
        is_nearest(keys, c, k)
    }
}

/// The `.vox` voxel for cell `p` (shifted by `mn`, Y-up to Z-up) with
/// palette index `k`.
pub open spec fn vox_voxel(p: IVec3, mn: IVec3, k: int) -> VoxVoxel {
    ((p.x - mn.x) as u8, (p.z - mn.z) as u8, (p.y - mn.y) as u8, k as u8)
}

/// The 256-entry palette: each palette color, opaque, then transparent
/// black.
pub open spec fn full_palette(keys: Seq<Color8>) -> Seq<[u8; 4]> {
    Seq::new(
        256,
        |i: int|
            if i < keys.len() {
                [keys[i][0], keys[i][1], keys[i][2], 255u8]
            } else {
                [0u8, 0u8, 0u8, 0u8]
            },
    )
}

/// `cs` lists every cell of `m` exactly once, with its color.
pub open spec fn lists_cells(cs: Seq<(IVec3, Color8)>, m: Map<IVec3, Color8>) -> bool {
    &&& forall|i: int, j: int| 0 <= i < j < cs.len() ==> (#[trigger] cs[i]).0 != (#[trigger] cs[j]).0
    &&& forall|i: int| 0 <= i < cs.len() ==> #[trigger] map_get(m, cs[i].0) == Some(cs[i].1)
    &&& forall|p: IVec3| #[trigger] m.contains_key(p) ==> exists|i: int| 0 <= i < cs.len() && cs[i].0 == p
}

/// The colors of a cell list.
pub open spec fn colors_of(cs: Seq<(IVec3, Color8)>) -> Seq<Color8> {
    cs.map_values(|e: (IVec3, Color8)| e.1)
}

/// `v` is the voxel for cell `i` of `cs`: the cell shifted by `mn`, with
/// the palette index of its color as the palette stood after that color was
/// seen.
pub open spec fn voxel_ok(cs: Seq<(IVec3, Color8)>, mn: IVec3, i: int, v: VoxVoxel) -> bool {
    exists|k: int| palette_index(palette_keys(colors_of(cs.take(i + 1))), cs[i].1, k) && v == vox_voxel(cs[i].0, mn, k)
}

/// The model for the cells `cs` with bounding box `mn..=mx`: every cell in
/// order, shifted and remapped, with its palette index as the palette stood
/// after that cell's color was seen.
pub open spec fn model_of(cs: Seq<(IVec3, Color8)>, mn: IVec3, mx: IVec3, vs: Seq<VoxVoxel>, pal: Seq<[u8; 4]>, size: (u32, u32, u32)) -> bool {
    &&& vs.len() == cs.len()
    &&& forall|i: int| 0 <= i < cs.len() ==> voxel_ok(cs, mn, i, #[trigger] vs[i])
    &&& pal == full_palette(palette_keys(colors_of(cs)))
    &&& size == ((mx.x - mn.x + 1) as u32, (mx.z - mn.z + 1) as u32, (mx.y - mn.y + 1) as u32)
}

proof fn lemma_dedup_len<A>(s: Seq<A>)
    ensures
        dedup(s).len() <= s.len(),
        forall|x: A| dedup(s).contains(x) <==> s.contains(x),
        dedup(s).no_duplicates(),
    decreases s.len(),
{
    if s.len() > 0 {
        let t = s.drop_last();
        let l = s.last();
        lemma_dedup_len(t);
        let d = dedup(t);
        assert forall|x: A| s.contains(x) <==> (t.contains(x) || x == l) by {
            if s.contains(x) {
                let i = choose|i: int| 0 <= i < s.len() && s[i] == x;
                if i < s.len() - 1 {
                    assert(t[i] == x);
                }
            }
            if t.contains(x) {
                let i = choose|i: int| 0 <= i < t.len() && t[i] == x;
                assert(s[i] == x);
            }
            if x == l {
                assert(s[s.len() - 1] == x);
            }
        }
        if !d.contains(l) {
            assert forall|x: A| d.push(l).contains(x) <==> (d.contains(x) || x == l) by {
                if d.push(l).contains(x) {
                    let i = choose|i: int| 0 <= i < d.push(l).len() && d.push(l)[i] == x;
                    if i < d.len() {
                        assert(d[i] == x);
                    }
                }
                if d.contains(x) {
                    let i = choose|i: int| 0 <= i < d.len() && d[i] == x;
                    assert(d.push(l)[i] == x);
                }
                if x == l {
                    assert(d.push(l)[d.len() as int] == x);
                }
            }
        }
    }
}

/// Index of the first nearest entry of a non-empty palette.
fn nearest(pal: &Vec<Color8>, c: Color8) -> (k: usize)
    requires
        pal@.len() > 0,
    ensures
        is_nearest(pal@, c, k as int),
{
    let mut best: usize = 0;
    let mut best_d: i32 = i32::MAX;
    let mut i: usize = 0;
    while i < pal.len()
        invariant
            i <= pal@.len(),
            pal@.len() > 0,
            i == 0 ==> best_d == i32::MAX && best == 0,
            i > 0 ==> best < i && best_d == rgb_dist(pal@[best as int], c),
            forall|j: int| 0 <= j < i ==> rgb_dist(#[trigger] pal@[j], c) >= best_d,
            forall|j: int| 0 <= j < best ==> rgb_dist(#[trigger] pal@[j], c) > best_d,
        decreases pal.len() - i,
    {
        let p = pal[i];
        let dr = p[0] as i32 - c[0] as i32;
        let dg = p[1] as i32 - c[1] as i32;
        let db = p[2] as i32 - c[2] as i32;
        assert(dr * dr <= 65025 && dg * dg <= 65025 && db * db <= 65025) by (nonlinear_arith)
            requires
                -255 <= dr <= 255,
                -255 <= dg <= 255,
                -255 <= db <= 255,
        ;
        assert(0 <= dr * dr && 0 <= dg * dg && 0 <= db * db) by (nonlinear_arith);
        let d = dr * dr + dg * dg + db * db;
        assert(d == rgb_dist(p, c));
        if d < best_d {
            best_d = d;
            best = i;
        }
        i = i + 1;
    }
    best
}

/// The single-model `.vox` scene for the cells of `grid`: the cells,
/// shifted so the bounding box starts at the origin and remapped to Z-up;
/// the first 255 distinct colors make the palette and later colors take the
/// nearest palette entry. Fails on an empty grid, or one whose bounding box
/// is wider than 256 cells along some axis.
pub fn vox_model(grid: &VoxelGrid) -> (r: Result<VoxModel, VoxError>)
    requires
        grid.wf(),
    ensures
        r == Err::<VoxModel, VoxError>(VoxError::Empty) <==> grid@.dom().len() == 0,
        r matches Err(VoxError::TooLarge { x, y, z }) ==> exists|mn: IVec3, mx: IVec3|
            {
                &&& is_bounding_box(grid@.dom(), mn, mx)
                &&& x == mx.x - mn.x + 1 && y == mx.y - mn.y + 1 && z == mx.z - mn.z + 1
                &&& (x > VOX_MAX_EXTENT || y > VOX_MAX_EXTENT || z > VOX_MAX_EXTENT)
            },
        r matches Err(e) ==> e is Empty || e is TooLarge,
        r matches Ok(model) ==> exists|cs: Seq<(IVec3, Color8)>, mn: IVec3, mx: IVec3|
            #![trigger lists_cells(cs, grid@), is_bounding_box(grid@.dom(), mn, mx)]
            {
                &&& lists_cells(cs, grid@)
                &&& is_bounding_box(grid@.dom(), mn, mx)
                &&& mx.x - mn.x < VOX_MAX_EXTENT && mx.y - mn.y < VOX_MAX_EXTENT && mx.z - mn.z < VOX_MAX_EXTENT
                &&& model_of(cs, mn, mx, model.voxels@, model.palette@, model.size)
            },
        r matches Ok(model) ==> forall|i: int| 0 <= i < model.voxels@.len() ==> (#[trigger] model.voxels@[i]).3 < 255,
{
    let bb = grid.bounding_box();
    let (mn, mx) = match bb {
        None => return Err(VoxError::Empty),
        Some(b) => b,
    };
    let ex = mx.x as i64 - mn.x as i64 + 1;
    let ey = mx.y as i64 - mn.y as i64 + 1;
    let ez = mx.z as i64 - mn.z as i64 + 1;
    if ex > VOX_MAX_EXTENT || ey > VOX_MAX_EXTENT || ez > VOX_MAX_EXTENT {
        return Err(VoxError::TooLarge { x: ex, y: ey, z: ez });
    }
    let cells = grid.iter_occupied();
    let ghost cs = cells@;
    let mut keys: Vec<Color8> = Vec::new();
    let mut voxels: Vec<VoxVoxel> = Vec::new();
    proof {
        assert(colors_of(cs.take(0)) =~= Seq::<Color8>::empty());
        assert(dedup(Seq::<Color8>::empty()) == Seq::<Color8>::empty());
    }
    let mut i: usize = 0;
    while i < cells.len()
        invariant
            i <= cs.len(),
            cs == cells@,
            grid.wf(),
            is_bounding_box(grid@.dom(), mn, mx),
            mx.x - mn.x < VOX_MAX_EXTENT && mx.y - mn.y < VOX_MAX_EXTENT && mx.z - mn.z < VOX_MAX_EXTENT,
            forall|j: int| 0 <= j < cs.len() ==> #[trigger] map_get(grid@, cs[j].0) == Some(cs[j].1),
            keys@ == palette_keys(colors_of(cs.take(i as int))),
            voxels@.len() == i,
            forall|j: int| 0 <= j < i ==> voxel_ok(cs, mn, j, #[trigger] voxels@[j]),
            forall|j: int| 0 <= j < i ==> (#[trigger] voxels@[j]).3 < 255,
        decreases cs.len() - i,
    {
        let (p, c) = cells[i];
        let ghost before = colors_of(cs.take(i as int));
        let ghost after = colors_of(cs.take(i + 1));
        proof {
            assert(after.drop_last() =~= before);
            assert(after.last() == c);
            lemma_dedup_len(before);
            lemma_dedup_len(after);
        }
        let k: usize = match position(&keys, &c) {
            Some(k) => {
                proof {
                    // Already in the palette, which the longer list keeps.
                    assert(dedup(before).contains(c));
                    assert(dedup(after) == dedup(before));
                }
                k
            },
            None => {
                if keys.len() < VOX_PALETTE_COLORS {
                    let k = keys.len();
                    keys.push(c);
                    proof {
                        if dedup(before).contains(c) {
                            let t = choose|t: int| 0 <= t < dedup(before).len() && dedup(before)[t] == c;
                            assert(keys@[t] == c);
                        }
                        assert(dedup(after) == dedup(before).push(c));
                        assert(keys@ =~= palette_keys(after));
                        assert(first_at(keys@, c, k as int)) by {
                            assert forall|j: int| 0 <= j < k implies keys@[j] != c by {
                                assert(keys@[j] == dedup(before)[j]);
                            }
                        }
                    }
                    k
                } else {
                    let k = nearest(&keys, c);
                    proof {
                        if dedup(before).contains(c) {
                            assert(dedup(after) == dedup(before));
                        } else {
                            assert(dedup(after) == dedup(before).push(c));
                            assert(dedup(after).take(VOX_PALETTE_COLORS as int) =~= dedup(before).take(
                                VOX_PALETTE_COLORS as int,
                            ));
                        }
                        assert(keys@ == palette_keys(after));
                        if keys@.contains(c) {
                            let t = choose|t: int| 0 <= t < keys@.len() && keys@[t] == c;
                            assert(false);
                        }
                    }
                    k
                }
            },
        };
        proof {
            assert(keys@ == palette_keys(after));
            assert(palette_index(keys@, c, k as int));
            assert(k < 255);
            assert(map_get(grid@, cs[i as int].0) == Some(cs[i as int].1));
            assert(grid@.dom().contains(p));
            assert(le3(mn, p) && le3(p, mx));
        }
        let v: VoxVoxel = ((p.x - mn.x) as u8, (p.z - mn.z) as u8, (p.y - mn.y) as u8, k as u8);
        let ghost old_vox = voxels@;
        voxels.push(v);
        proof {
            assert(voxels@[i as int] == vox_voxel(cs[i as int].0, mn, k as int));
            assert forall|j: int| 0 <= j < i + 1 implies voxel_ok(cs, mn, j, #[trigger] voxels@[j]) by {
                if j < i {
                    assert(voxel_ok(cs, mn, j, old_vox[j]));
                    assert(voxels@[j] == old_vox[j]);
                } else {
                    assert(palette_index(palette_keys(colors_of(cs.take(j + 1))), cs[j].1, k as int));
                }
            }
        }
        i = i + 1;
    }
    let mut palette: Vec<[u8; 4]> = Vec::new();
    let mut t: usize = 0;
    while t < 256
        invariant
            t <= 256,
            keys@.len() <= VOX_PALETTE_COLORS,
            palette@ =~= full_palette(keys@).take(t as int),
        decreases 256 - t,
    {
        if t < keys.len() {
            let c = keys[t];
            palette.push([c[0], c[1], c[2], 255u8]);
        } else {
            palette.push([0u8, 0u8, 0u8, 0u8]);
        }
        t = t + 1;
    }
    proof {
        assert(cs.take(cs.len() as int) =~= cs);
        assert(full_palette(keys@).take(256) =~= full_palette(keys@));
        assert forall|q: IVec3| #[trigger] grid@.contains_key(q) implies exists|j: int| 0 <= j < cs.len() && cs[j].0 == q by {}
    }
    proof {
        assert(lists_cells(cs, grid@));
        assert(model_of(cs, mn, mx, voxels@, palette@, ((mx.x - mn.x + 1) as u32, (mx.z - mn.z + 1) as u32, (mx.y - mn.y + 1) as u32)));
    }
    let size = ((mx.x as i64 - mn.x as i64 + 1) as u32, (mx.z as i64 - mn.z as i64 + 1) as u32, (mx.y as i64 - mn.y as i64 + 1) as u32);
    let model = VoxModel { size, voxels, palette };
    proof {
        assert(size == ((mx.x - mn.x + 1) as u32, (mx.z - mn.z + 1) as u32, (mx.y - mn.y + 1) as u32));
        assert(model_of(cs, mn, mx, model.voxels@, model.palette@, model.size));
        assert(lists_cells(cs, grid@));
        assert(is_bounding_box(grid@.dom(), mn, mx));
        assert(mx.x - mn.x < VOX_MAX_EXTENT && mx.y - mn.y < VOX_MAX_EXTENT && mx.z - mn.z < VOX_MAX_EXTENT);
    }
    Ok(model)
}

/// The `.vox` file for the cells of `grid` (see `vox_model`), as written by
/// `dot_vox`.
pub fn export(grid: &VoxelGrid) -> (r: Result<Vec<u8>, VoxError>)
    requires
        grid.wf(),
    ensures
        r is Ok <==> fits_vox(grid@.dom()),
        r is Err && r->Err_0 is TooLarge <==> too_wide_for_vox(grid@.dom()),
        r == Err::<Vec<u8>, VoxError>(VoxError::Empty) <==> grid@.dom().len() == 0,
        r matches Ok(bytes) ==> exists|m: VoxModel|
            {
                &&& exists|cs: Seq<(IVec3, Color8)>, mn: IVec3, mx: IVec3|
                    #![trigger lists_cells(cs, grid@), is_bounding_box(grid@.dom(), mn, mx)]
                    {
                        &&& lists_cells(cs, grid@)
                        &&& is_bounding_box(grid@.dom(), mn, mx)
                        &&& model_of(cs, mn, mx, m.voxels@, m.palette@, m.size)
                    }
                &&& bytes@ == vox_written(VOX_VERSION, m.size, m.voxels@, m.palette@)
            },
        r matches Err(VoxError::TooLarge { x, y, z }) ==> exists|mn: IVec3, mx: IVec3|
            {
                &&& is_bounding_box(grid@.dom(), mn, mx)
                &&& x == mx.x - mn.x + 1 && y == mx.y - mn.y + 1 && z == mx.z - mn.z + 1
                &&& (x > VOX_MAX_EXTENT || y > VOX_MAX_EXTENT || z > VOX_MAX_EXTENT)
            },
{
    let r = vox_model(grid);
    proof {
        match &r {
            Ok(m) => {
                let (cs, mn, mx) = choose|cs: Seq<(IVec3, Color8)>, mn: IVec3, mx: IVec3|
                    #![trigger lists_cells(cs, grid@), is_bounding_box(grid@.dom(), mn, mx)]
                    {
                        &&& lists_cells(cs, grid@)
                        &&& is_bounding_box(grid@.dom(), mn, mx)
                        &&& mx.x - mn.x < VOX_MAX_EXTENT && mx.y - mn.y < VOX_MAX_EXTENT && mx.z - mn.z < VOX_MAX_EXTENT
                        &&& model_of(cs, mn, mx, m.voxels@, m.palette@, m.size)
                    };
                assert(fits_vox(grid@.dom()));
                lemma_fits_not_too_wide(grid@.dom());
            },
            Err(VoxError::TooLarge { .. }) => {
                lemma_fits_not_too_wide(grid@.dom());
            },
            Err(_) => {
                grid.lemma_finite();
                lemma_empty_has_no_box(grid@.dom());
            },
        }
    }
    match r {
        Err(e) => Err(e),
        Ok(m) => match write_vox(VOX_VERSION, &identity_index_map(), &m) {
            Some(b) => Ok(b),
            None => Err(VoxError::Write),
        },
    }
}

// ---------------------------------------------------------------------------
// Import
// ---------------------------------------------------------------------------

/// Palette entry `i` as an opaque color; an index past the palette reads as
/// white.
pub open spec fn entry_color(pal: Seq<[u8; 4]>, i: int) -> Color8 {
    if 0 <= i < pal.len() {
        [pal[i][0], pal[i][1], pal[i][2], 255u8]
    } else {
        [255u8, 255u8, 255u8, 255u8]
    }
}

/// The grid cell of a `.vox` voxel (Z-up to Y-up).
pub open spec fn voxel_cell(v: VoxVoxel) -> IVec3 {
    IVec3 { x: v.0 as i32, y: v.2 as i32, z: v.1 as i32 }
}

/// `m` after writing the first `n` voxels, in order.
pub open spec fn place_voxels(m: Map<IVec3, Color8>, vs: Seq<VoxVoxel>, pal: Seq<[u8; 4]>, n: int) -> Map<IVec3, Color8>
    decreases n,
{
    if n <= 0 {
        m
    } else {
        grid_set(place_voxels(m, vs, pal, n - 1), voxel_cell(vs[n - 1]), Some(entry_color(pal, vs[n - 1].3 as int)))
    }
}

/// The colors the voxels use: for each palette index some voxel has, in
/// ascending index order, its entry color.
pub open spec fn used_colors(vs: Seq<VoxVoxel>, pal: Seq<[u8; 4]>) -> Seq<Color8> {
    Seq::new(256, |i: int| i).filter(|i: int| exists|j: int| 0 <= j < vs.len() && vs[j].3 == i).map_values(
        |i: int| entry_color(pal, i),
    )
}

/// Writes the voxels of the first model of `data` into `grid` and returns
/// the colors they use, one per palette index used, in index order. Fails
/// when the file has no model.
pub fn import_data(data: &VoxData, grid: &mut VoxelGrid) -> (r: Result<Vec<Color8>, VoxError>)
    requires
        old(grid).wf(),
        data.models@.len() > 0 ==> old(grid)@.dom().len() + data.models@[0]@.len() < u32::MAX,
    ensures
        final(grid).wf(),
        old(grid).dirty_view().subset_of(final(grid).dirty_view()),
        changes_marked(old(grid)@, final(grid)@, final(grid).dirty_view()),
        data.models@.len() == 0 ==> r == Err::<Vec<Color8>, VoxError>(VoxError::NoModels) && final(grid)@ == old(grid)@,
        data.models@.len() > 0 ==> r is Ok,
        r matches Ok(used) ==> {
            &&& data.models@.len() > 0
            &&& final(grid)@ == place_voxels(old(grid)@, data.models@[0]@, data.palette@, data.models@[0]@.len() as int)
            &&& used@ == used_colors(data.models@[0]@, data.palette@)
        },
{
    proof {
        lemma_no_change_marked(grid@, grid.dirty_view());
    }
    if data.models.len() == 0 {
        return Err(VoxError::NoModels);
    }
    let model = &data.models[0];
    let ghost vs = model@;
    let ghost m0 = grid@;
    let ghost d0_marks = grid.dirty_view();
    let ghost pal = data.palette@;
    proof {
        grid.lemma_finite();
    }
    let mut used: Vec<bool> = Vec::new();
    let mut t: usize = 0;
    while t < 256
        invariant
            d0_marks.subset_of(grid.dirty_view()),
            changes_marked(m0, grid@, grid.dirty_view()),
            t <= 256,
            used@.len() == t,
            forall|j: int| 0 <= j < t ==> !(#[trigger] used@[j]),
        decreases 256 - t,
    {
        used.push(false);
        t = t + 1;
    }
    let mut i: usize = 0;
    while i < model.len()
        invariant
            d0_marks.subset_of(grid.dirty_view()),
            changes_marked(m0, grid@, grid.dirty_view()),
            i <= vs.len(),
            vs == model@,
            pal == data.palette@,
            grid.wf(),
            m0.dom().finite(),
            m0.dom().len() + vs.len() < u32::MAX,
            grid@ == place_voxels(m0, vs, pal, i as int),
            grid@.dom().len() <= m0.dom().len() + i,
            used@.len() == 256,
            forall|k: int| 0 <= k < 256 ==> (#[trigger] used@[k] <==> exists|j: int| 0 <= j < i && vs[j].3 == k),
        decreases vs.len() - i,
    {
        let v = model[i];
        let idx = v.3 as usize;
        used.set(idx, true);
        let col: Color8 = if idx < data.palette.len() {
            let e = data.palette[idx];
            [e[0], e[1], e[2], 255u8]
        } else {
            [255u8, 255u8, 255u8, 255u8]
        };
        let cell = IVec3 { x: v.0 as i32, y: v.2 as i32, z: v.1 as i32 };
        proof {
            grid.lemma_finite();
            lemma_grid_set_len(grid@, cell, Some(col));
            assert forall|k: int| 0 <= k < 256 implies (#[trigger] used@[k] <==> exists|j: int| 0 <= j < i + 1 && vs[j].3 == k) by {
                if exists|j: int| 0 <= j < i + 1 && vs[j].3 == k {
                    let j = choose|j: int| 0 <= j < i + 1 && vs[j].3 == k;
                    if j < i {
                        assert(exists|j: int| 0 <= j < i && vs[j].3 == k);
                    }
                }
            }
        }
        let ghost mb_marks = grid@;
        let ghost db_marks = grid.dirty_view();
        grid.set(cell, Some(col));
        proof {
            lemma_write_marks(m0, mb_marks, db_marks, cell, Some(col), grid.dirty_view());
        }
        i = i + 1;
    }
    let ghost ids = Seq::new(256, |k: int| k);
    let ghost keep = |k: int| exists|j: int| 0 <= j < vs.len() && vs[j].3 == k;
    let mut out: Vec<Color8> = Vec::new();
    let mut k: usize = 0;
    while k < 256
        invariant
            d0_marks.subset_of(grid.dirty_view()),
            changes_marked(m0, grid@, grid.dirty_view()),
            k <= 256,
            used@.len() == 256,
            pal == data.palette@,
            ids == Seq::new(256, |k: int| k),
            keep == (|k: int| exists|j: int| 0 <= j < vs.len() && vs[j].3 == k),
            forall|x: int| 0 <= x < 256 ==> (#[trigger] used@[x] <==> keep(x)),
            out@ == ids.take(k as int).filter(keep).map_values(|x: int| entry_color(pal, x)),
        decreases 256 - k,
    {
        proof {
            assert(ids.take(k + 1) =~= ids.take(k as int).push(k as int));
            ids.take(k as int).lemma_filter_push(k as int, keep);
        }
        if used[k] {
            let col: Color8 = if k < data.palette.len() {
                let e = data.palette[k];
                [e[0], e[1], e[2], 255u8]
            } else {
                [255u8, 255u8, 255u8, 255u8]
            };
            out.push(col);
            proof {
                let f = ids.take(k as int).filter(keep);
                assert(f.push(k as int).map_values(|x: int| entry_color(pal, x)) =~= f.map_values(
                    |x: int| entry_color(pal, x),
                ).push(entry_color(pal, k as int)));
            }
        }
        k = k + 1;
    }
    proof {
        assert(ids.take(256) =~= ids);
        assert(keep =~= (|i: int| exists|j: int| 0 <= j < vs.len() && vs[j].3 == i));
    }
    Ok(out)
}

/// Reads a `.vox` file with `dot_vox` and writes its first model into
/// `grid` (see `import_data`), returning the colors it uses. Fails on an
/// invalid file, one without a model, or one whose voxels the grid cannot
/// take; on failure the grid is untouched.
pub fn import(bytes: &[u8], grid: &mut VoxelGrid) -> (r: Result<Vec<Color8>, VoxError>)
    requires
        old(grid).wf(),
    ensures
        final(grid).wf(),
        old(grid).dirty_view().subset_of(final(grid).dirty_view()),
        changes_marked(old(grid)@, final(grid)@, final(grid).dirty_view()),
        vox_parsed(bytes@) is None ==> r == Err::<Vec<Color8>, VoxError>(VoxError::Invalid),
        r matches Err(e) ==> final(grid)@ == old(grid)@,
        r matches Ok(used) ==> vox_parsed(bytes@) matches Some((models, pal)) && {
            &&& models.len() > 0
            &&& final(grid)@ == place_voxels(old(grid)@, models[0], pal, models[0].len() as int)
            &&& used@ == used_colors(models[0], pal)
        },
        vox_parsed(bytes@) matches Some((models, pal)) ==> {
            &&& models.len() == 0 ==> r == Err::<Vec<Color8>, VoxError>(VoxError::NoModels)
            &&& models.len() > 0 && old(grid)@.dom().len() + models[0].len() < u32::MAX ==> r is Ok
            &&& models.len() > 0 && old(grid)@.dom().len() + models[0].len() >= u32::MAX ==> r
                == Err::<Vec<Color8>, VoxError>(VoxError::Full)
        },
{
    proof {
        lemma_no_change_marked(grid@, grid.dirty_view());
    }
    let data = match load_vox(bytes) {
        None => return Err(VoxError::Invalid),
        Some(d) => d,
    };
    proof {
        assert(data.models_view().len() == data.models@.len());
    }
    if data.models.len() > 0 {
        let n = data.models[0].len();
        let c = grid.count();
        proof {
            assert(data.models_view()[0] == data.models@[0]@);
        }
        if n >= u32::MAX as usize || c as usize >= u32::MAX as usize - n {
            return Err(VoxError::Full);
        }
    }
    import_data(&data, grid)
}


// ---------------------------------------------------------------------------
// Reading back what was exported
// ---------------------------------------------------------------------------

/// Cell `p` relative to the corner `mn`.
pub open spec fn rel_cell(p: IVec3, mn: IVec3) -> IVec3 {
    IVec3 { x: (p.x - mn.x) as i32, y: (p.y - mn.y) as i32, z: (p.z - mn.z) as i32 }
}

/// A color made opaque, as a `.vox` palette stores it.
pub open spec fn opaque(c: Color8) -> Color8 {
    [c[0], c[1], c[2], 255u8]
}

/// The first `n` listed cells, moved relative to `mn` and made opaque,
/// written in order.
pub open spec fn rel_cells(cs: Seq<(IVec3, Color8)>, mn: IVec3, n: int) -> Map<IVec3, Color8>
    decreases n,
{
    if n <= 0 {
        Map::empty()
    } else {
        rel_cells(cs, mn, n - 1).insert(rel_cell(cs[n - 1].0, mn), opaque(cs[n - 1].1))
    }
}

/// The palette colors of a prefix come first among those of the whole.
proof fn lemma_dedup_prefix<A>(s: Seq<A>, i: int)
    requires
        0 <= i <= s.len(),
    ensures
        dedup(s.take(i)).len() <= dedup(s).len(),
        dedup(s).take(dedup(s.take(i)).len() as int) == dedup(s.take(i)),
    decreases s.len(),
{
    if i == s.len() {
        assert(s.take(i) =~= s);
        assert(dedup(s).take(dedup(s).len() as int) =~= dedup(s));
    } else {
        let t = s.drop_last();
        assert(s.take(i) =~= t.take(i));
        lemma_dedup_prefix(t, i);
        let d = dedup(t);
        let k = dedup(t.take(i)).len() as int;
        if !d.contains(s.last()) {
            assert(d.push(s.last()).take(k) =~= d.take(k));
        }
    }
}

/// The voxel exported for cell `i` reads back as that cell, relative to the
/// corner, in its color made opaque.
proof fn lemma_voxel_back(cs: Seq<(IVec3, Color8)>, mn: IVec3, mx: IVec3, m: Map<IVec3, Color8>, vs: Seq<VoxVoxel>, pal: Seq<[u8; 4]>, size: (u32, u32, u32), i: int)
    requires
        lists_cells(cs, m),
        is_bounding_box(m.dom(), mn, mx),
        model_of(cs, mn, mx, vs, pal, size),
        mx.x - mn.x < 256 && mx.y - mn.y < 256 && mx.z - mn.z < 256,
        dedup(colors_of(cs)).len() <= VOX_PALETTE_COLORS,
        0 <= i < cs.len(),
    ensures
        voxel_cell(vs[i]) == rel_cell(cs[i].0, mn),
        entry_color(pal, vs[i].3 as int) == opaque(cs[i].1),
        rel_cell(cs[i].0, mn).y >= 0,
{
    let p = cs[i].0;
    let c = cs[i].1;
    assert(map_get(m, cs[i].0) == Some(cs[i].1));
    assert(m.dom().contains(p));
    assert(le3(mn, p) && le3(p, mx));
    assert(voxel_ok(cs, mn, i, vs[i]));
    let k = choose|k: int| palette_index(palette_keys(colors_of(cs.take(i + 1))), c, k) && vs[i] == vox_voxel(p, mn, k);
    let cols = colors_of(cs);
    assert(colors_of(cs.take(i + 1)) =~= cols.take(i + 1));
    lemma_dedup_prefix(cols, i + 1);
    lemma_dedup_len(cols.take(i + 1));
    let di = dedup(cols.take(i + 1));
    assert(cols.take(i + 1)[i] == c);
    assert(cols.take(i + 1).contains(c));
    assert(palette_keys(cols.take(i + 1)) == di);
    assert(di.contains(c));
    assert(first_at(di, c, k));
    assert(palette_keys(cols) == dedup(cols));
    assert(dedup(cols)[k] == di[k]);
    assert(pal[k] == [c[0], c[1], c[2], 255u8]);
}

/// Reading the voxels of an exported model, over an empty grid, gives back
/// every cell relative to the model's corner, each in its color made
/// opaque. (The palette holds at most 255 colors; with more, the extra
/// colors come back as their nearest palette entries.)
pub proof fn law_vox_model_roundtrip(cs: Seq<(IVec3, Color8)>, mn: IVec3, mx: IVec3, m: Map<IVec3, Color8>, vs: Seq<VoxVoxel>, pal: Seq<[u8; 4]>, size: (u32, u32, u32))
    requires
        lists_cells(cs, m),
        is_bounding_box(m.dom(), mn, mx),
        model_of(cs, mn, mx, vs, pal, size),
        mx.x - mn.x < VOX_MAX_EXTENT && mx.y - mn.y < VOX_MAX_EXTENT && mx.z - mn.z < VOX_MAX_EXTENT,
        dedup(colors_of(cs)).len() <= VOX_PALETTE_COLORS,
    ensures
        place_voxels(Map::empty(), vs, pal, vs.len() as int) == rel_cells(cs, mn, cs.len() as int),
        forall|p: IVec3| #[trigger] m.contains_key(p) ==> rel_cells(cs, mn, cs.len() as int).contains_key(rel_cell(p, mn))
            && rel_cells(cs, mn, cs.len() as int)[rel_cell(p, mn)] == opaque(m[p]),
        forall|q: IVec3| #[trigger] rel_cells(cs, mn, cs.len() as int).contains_key(q) ==> exists|p: IVec3|
            m.contains_key(p) && q == rel_cell(p, mn),
{
    lemma_place_rel(cs, mn, mx, m, vs, pal, size, cs.len() as int);
    lemma_rel_lookup(cs, mn, mx, m, cs.len() as int);
}

proof fn lemma_place_rel(cs: Seq<(IVec3, Color8)>, mn: IVec3, mx: IVec3, m: Map<IVec3, Color8>, vs: Seq<VoxVoxel>, pal: Seq<[u8; 4]>, size: (u32, u32, u32), n: int)
    requires
        lists_cells(cs, m),
        is_bounding_box(m.dom(), mn, mx),
        model_of(cs, mn, mx, vs, pal, size),
        mx.x - mn.x < 256 && mx.y - mn.y < 256 && mx.z - mn.z < 256,
        dedup(colors_of(cs)).len() <= VOX_PALETTE_COLORS,
        0 <= n <= cs.len(),
    ensures
        place_voxels(Map::empty(), vs, pal, n) == rel_cells(cs, mn, n),
    decreases n,
{
    if n > 0 {
        lemma_place_rel(cs, mn, mx, m, vs, pal, size, n - 1);
        lemma_voxel_back(cs, mn, mx, m, vs, pal, size, n - 1);
    }
}

/// Each listed cell of `m` is found relative to the corner, and nothing
/// else is there.
proof fn lemma_rel_lookup(cs: Seq<(IVec3, Color8)>, mn: IVec3, mx: IVec3, m: Map<IVec3, Color8>, n: int)
    requires
        lists_cells(cs, m),
        is_bounding_box(m.dom(), mn, mx),
        mx.x - mn.x < 256 && mx.y - mn.y < 256 && mx.z - mn.z < 256,
        0 <= n <= cs.len(),
    ensures
        forall|j: int| 0 <= j < n ==> #[trigger] rel_cells(cs, mn, n).contains_key(rel_cell(cs[j].0, mn))
            && rel_cells(cs, mn, n)[rel_cell(cs[j].0, mn)] == opaque(cs[j].1),
        forall|q: IVec3| #[trigger] rel_cells(cs, mn, n).contains_key(q) ==> exists|j: int|
            0 <= j < n && q == rel_cell(cs[j].0, mn),
        n == cs.len() ==> forall|p: IVec3| #[trigger] m.contains_key(p) ==> rel_cells(cs, mn, n).contains_key(
            rel_cell(p, mn),
        ) && rel_cells(cs, mn, n)[rel_cell(p, mn)] == opaque(m[p]),
        n == cs.len() ==> forall|q: IVec3| #[trigger] rel_cells(cs, mn, n).contains_key(q) ==> exists|p: IVec3|
            m.contains_key(p) && q == rel_cell(p, mn),
    decreases n,
{
    if n > 0 {
        lemma_rel_lookup(cs, mn, mx, m, n - 1);
        let r = rel_cells(cs, mn, n);
        assert forall|j: int| 0 <= j < n implies #[trigger] r.contains_key(rel_cell(cs[j].0, mn)) && r[rel_cell(
            cs[j].0,
            mn,
        )] == opaque(cs[j].1) by {
            if j < n - 1 {
                assert(rel_cells(cs, mn, n - 1).contains_key(rel_cell(cs[j].0, mn)));
                let a = cs[j].0;
                let b = cs[n - 1].0;
                assert(a != b);
                assert(map_get(m, a) == Some(cs[j].1) && map_get(m, b) == Some(cs[n - 1].1));
                assert(m.dom().contains(a) && m.dom().contains(b));
                assert(le3(mn, a) && le3(mn, b) && le3(a, mx) && le3(b, mx));
                if rel_cell(a, mn) == rel_cell(b, mn) {
                    assert(a.x == b.x && a.y == b.y && a.z == b.z);
                    assert(a == b);
                }
            }
        }
        assert forall|q: IVec3| #[trigger] r.contains_key(q) implies exists|j: int|
            0 <= j < n && q == rel_cell(cs[j].0, mn) by {
            if q != rel_cell(cs[n - 1].0, mn) {
                assert(rel_cells(cs, mn, n - 1).contains_key(q));
            }
        }
    }
    if n == cs.len() {
        let r = rel_cells(cs, mn, n);
        assert forall|p: IVec3| #[trigger] m.contains_key(p) implies r.contains_key(rel_cell(p, mn)) && r[rel_cell(
            p,
            mn,
        )] == opaque(m[p]) by {
            let j = choose|j: int| 0 <= j < cs.len() && cs[j].0 == p;
            assert(map_get(m, cs[j].0) == Some(cs[j].1));
            assert(r.contains_key(rel_cell(cs[j].0, mn)));
        }
        assert forall|q: IVec3| #[trigger] r.contains_key(q) implies exists|p: IVec3|
            m.contains_key(p) && q == rel_cell(p, mn) by {
            let j = choose|j: int| 0 <= j < n && q == rel_cell(cs[j].0, mn);
            assert(map_get(m, cs[j].0) == Some(cs[j].1));
            assert(m.contains_key(cs[j].0));
        }
    }
}
} // verus!
