//! Goxel `.gox` files, version 2.
//!
//! A file is the magic `GOX `, the version (little-endian `i32`, 2), then
//! chunks until the end. Each chunk is a 4-byte type, the data length
//! (`i32`), the data, and a 4-byte checksum (ignored on read, zero on
//! write). `BL16` chunks hold raw 16³ RGBA blocks; the first `LAYR` chunk
//! places blocks, by index, at Goxel positions. Goxel is Z-up: grid cell
//! `(x, y, z)` is Goxel voxel `(x, z, y)`. Inside a block, Goxel voxel
//! `(gx, gy, gz)` sits at byte `(gz * 256 + gy * 16 + gx) * 4`.

use crate::bytes::{le_bytes, push_all, push_u32_le, push_zeros, zeros};
use crate::geom::{Color8, IVec3};
use crate::grid::{changes_marked, grid_set, lemma_marks_chain, lemma_no_change_marked, lemma_write_marks, map_get, VoxelGrid};
use crate::history::lemma_grid_set_len;
use crate::reader::{le_u32, LeReader, ReadError};
use vstd::prelude::*;
use vstd::string::{is_ascii_spec_bytes, StringSliceAdditionalSpecFns};

verus! {

/// Bytes in one raw 16³ RGBA block.
pub const BLOCK_BYTES: usize = 16384;

/// Voxels in one block.
pub const BLOCK_VOXELS: usize = 4096;

// ---------------------------------------------------------------------------
// Chunk framing
// ---------------------------------------------------------------------------

/// `GOX `
pub open spec fn gox_magic() -> Seq<u8> {
    seq![0x47u8, 0x4F, 0x58, 0x20]
}

/// `IMG `
pub open spec fn tag_img() -> Seq<u8> {
    seq![0x49u8, 0x4D, 0x47, 0x20]
}

/// `BL16`
pub open spec fn tag_bl16() -> Seq<u8> {
    seq![0x42u8, 0x4C, 0x31, 0x36]
}

/// `LAYR`
pub open spec fn tag_layr() -> Seq<u8> {
    seq![0x4Cu8, 0x41, 0x59, 0x52]
}

/// The first four bytes of a PNG image.
pub open spec fn png_magic() -> Seq<u8> {
    seq![0x89u8, 0x50, 0x4E, 0x47]
}

/// One chunk: type, length, data, zero checksum.
pub open spec fn chunk_bytes(typ: Seq<u8>, data: Seq<u8>) -> Seq<u8> {
    typ + le_bytes(data.len() as u32) + data + le_bytes(0)
}

/// One dictionary entry: key length, key, value length, value.
pub open spec fn dict_entry(key: Seq<u8>, value: Seq<u8>) -> Seq<u8> {
    le_bytes(key.len() as u32) + key + le_bytes(value.len() as u32) + value
}

/// Appends a chunk of type `typ` holding `data`.
pub fn write_chunk(out: &mut Vec<u8>, typ: &[u8; 4], data: &[u8])
    ensures
        final(out)@ == old(out)@ + chunk_bytes(typ@, data@),
{
    let ghost start = out@;
    out.push(typ[0]);
    out.push(typ[1]);
    out.push(typ[2]);
    out.push(typ[3]);
    proof {
        assert(out@ =~= start + typ@);
    }
    push_u32_le(out, data.len() as u32);
    push_all(out, data);
    push_u32_le(out, 0);
    proof {
        assert(out@ =~= start + chunk_bytes(typ@, data@));
    }
}

/// Appends a dictionary entry mapping `key` to `value`.
pub fn write_dict_entry(out: &mut Vec<u8>, key: &str, value: &[u8])
    ensures
        final(out)@ == old(out)@ + dict_entry(key.spec_bytes(), value@),
{
    let ghost start = out@;
    let kb = key.as_bytes();
    push_u32_le(out, kb.len() as u32);
    push_all(out, kb);
    push_u32_le(out, value.len() as u32);
    push_all(out, value);
    proof {
        assert(out@ =~= start + dict_entry(key.spec_bytes(), value@));
    }
}

// ---------------------------------------------------------------------------
// Blocks of a grid
// ---------------------------------------------------------------------------

/// The block holding cell `p` (floor division of each axis by 16).
pub open spec fn block_of(p: IVec3) -> IVec3 {
    IVec3 { x: (p.x as int / 16) as i32, y: (p.y as int / 16) as i32, z: (p.z as int / 16) as i32 }
}

/// Blocks holding at least one cell of `m`.
pub open spec fn occupied_blocks(m: Map<IVec3, Color8>) -> Set<IVec3> {
    Set::new(|b: IVec3| exists|p: IVec3| m.contains_key(p) && block_of(p) == b)
}

/// Lexicographic order on block coordinates.
pub open spec fn block_lt(a: IVec3, b: IVec3) -> bool {
    ||| a.x < b.x
    ||| a.x == b.x && a.y < b.y
    ||| a.x == b.x && a.y == b.y && a.z < b.z
}

/// Strictly increasing in lexicographic order.
pub open spec fn sorted_blocks(bs: Seq<IVec3>) -> bool {
    forall|i: int, j: int| 0 <= i < j < bs.len() ==> block_lt(#[trigger] bs[i], #[trigger] bs[j])
}

/// Block coordinates of `i32` cells.
pub open spec fn block_in_range(b: IVec3) -> bool {
    &&& -0x800_0000 <= b.x < 0x800_0000
    &&& -0x800_0000 <= b.y < 0x800_0000
    &&& -0x800_0000 <= b.z < 0x800_0000
}

/// The grid cell at voxel `j` of block `b`.
pub open spec fn block_cell(b: IVec3, j: int) -> IVec3 {
    IVec3 {
        x: (b.x * 16 + j % 16) as i32,
        y: (b.y * 16 + j / 256) as i32,
        z: (b.z * 16 + (j / 16) % 16) as i32,
    }
}

/// Byte `k` of a voxel's RGBA: an occupied cell is its color, opaque; an
/// empty one is all zero.
pub open spec fn voxel_byte(c: Option<Color8>, k: int) -> u8 {
    match c {
        Some(v) => if k == 3 { 255u8 } else { v[k] },
        None => 0u8,
    }
}

/// The raw RGBA data of block `b` of `m`.
pub open spec fn block_data(m: Map<IVec3, Color8>, b: IVec3) -> Seq<u8> {
    Seq::new(BLOCK_BYTES as nat, |i: int| voxel_byte(map_get(m, block_cell(b, i / 4)), i % 4))
}

/// The block chunks for the blocks `bs`, in order.
pub open spec fn blocks_part(bs: Seq<IVec3>, m: Map<IVec3, Color8>) -> Seq<u8>
    decreases bs.len(),
{
    if bs.len() == 0 {
        Seq::empty()
    } else {
        blocks_part(bs.drop_last(), m) + chunk_bytes(tag_bl16(), block_data(m, bs.last()))
    }
}

/// Layer entry `i`: the block index, then its Goxel position (Z-up), then
/// eight reserved bytes.
pub open spec fn layer_ref_bytes(i: int, b: IVec3) -> Seq<u8> {
    le_bytes(i as u32) + le_bytes((b.x * 16) as u32) + le_bytes((b.z * 16) as u32) + le_bytes(
        (b.y * 16) as u32,
    ) + zeros(8)
}

/// The layer entries for blocks `bs`, one per block in order.
pub open spec fn layer_refs_part(bs: Seq<IVec3>) -> Seq<u8>
    decreases bs.len(),
{
    if bs.len() == 0 {
        Seq::empty()
    } else {
        layer_refs_part(bs.drop_last()) + layer_ref_bytes(bs.len() - 1, bs.last())
    }
}

/// `name`
pub open spec fn key_name() -> Seq<u8> {
    seq![0x6Eu8, 0x61, 0x6D, 0x65]
}

/// `visible`
pub open spec fn key_visible() -> Seq<u8> {
    seq![0x76u8, 0x69, 0x73, 0x69, 0x62, 0x6C, 0x65]
}

/// `Layer 0`
pub open spec fn layer_name() -> Seq<u8> {
    seq![0x4Cu8, 0x61, 0x79, 0x65, 0x72, 0x20, 0x30]
}

/// Data of the single layer: entry count, entries, name and visibility,
/// then the dictionary terminator.
pub open spec fn layer_data(bs: Seq<IVec3>) -> Seq<u8> {
    le_bytes(bs.len() as u32) + layer_refs_part(bs) + dict_entry(key_name(), layer_name()) + dict_entry(
        key_visible(),
        seq![1u8],
    ) + le_bytes(0)
}

/// A whole `.gox` file for the cells of `m`, whose blocks are `bs`.
pub open spec fn gox_file(bs: Seq<IVec3>, m: Map<IVec3, Color8>) -> Seq<u8> {
    gox_magic() + le_bytes(2) + chunk_bytes(tag_img(), le_bytes(0)) + blocks_part(bs, m) + chunk_bytes(
        tag_layr(),
        layer_data(bs),
    )
}

fn block_lt_exec(a: &IVec3, b: &IVec3) -> (r: bool)
    ensures
        r == block_lt(*a, *b),
{
    a.x < b.x || (a.x == b.x && a.y < b.y) || (a.x == b.x && a.y == b.y && a.z < b.z)
}

fn block_of_exec(p: IVec3) -> (b: IVec3)
    ensures
        b == block_of(p),
        block_in_range(b),
{
    let x = match p.x.checked_div_euclid(16) {
        Some(v) => v,
        None => 0,
    };
    let y = match p.y.checked_div_euclid(16) {
        Some(v) => v,
        None => 0,
    };
    let z = match p.z.checked_div_euclid(16) {
        Some(v) => v,
        None => 0,
    };
    IVec3 { x, y, z }
}

/// Adds `b` to the sorted list `bs` unless it is there already.
fn insert_block(bs: &mut Vec<IVec3>, b: IVec3)
    requires
        sorted_blocks(old(bs)@),
    ensures
        sorted_blocks(final(bs)@),
        forall|x: IVec3| final(bs)@.contains(x) <==> (old(bs)@.contains(x) || x == b),
{
    let mut k: usize = 0;
    while k < bs.len() && block_lt_exec(&bs[k], &b)
        invariant
            k <= bs.len(),
            forall|j: int| 0 <= j < k ==> block_lt(#[trigger] bs@[j], b),
        decreases bs.len() - k,
    {
        k = k + 1;
    }
    if k < bs.len() && bs[k] == b {
        return ;
    }
    let ghost old_bs = bs@;
    bs.insert(k, b);
    proof {
        let s = bs@;
        assert forall|i: int, j: int| 0 <= i < j < s.len() implies block_lt(
            #[trigger] s[i],
            #[trigger] s[j],
        ) by {
            if j < k {
                assert(block_lt(old_bs[i], old_bs[j]));
            } else if j == k {
                assert(block_lt(old_bs[i], b));
            } else if i < k {
                assert(block_lt(old_bs[i], b));
                assert(block_lt(old_bs[k as int], old_bs[j - 1]) || k as int == j - 1);
            } else if i == k {
                assert(block_lt(old_bs[k as int], old_bs[j - 1]) || k as int == j - 1);
            } else {
                assert(block_lt(old_bs[i - 1], old_bs[j - 1]));
            }
        }
        assert forall|x: IVec3| s.contains(x) <==> (old_bs.contains(x) || x == b) by {
            if s.contains(x) {
                let i = choose|i: int| 0 <= i < s.len() && s[i] == x;
                if i < k {
                    assert(old_bs[i] == x);
                } else if i > k {
                    assert(old_bs[i - 1] == x);
                }
            }
            if old_bs.contains(x) {
                let i = choose|i: int| 0 <= i < old_bs.len() && old_bs[i] == x;
                if i < k {
                    assert(s[i] == x);
                } else {
                    assert(s[i + 1] == x);
                }
            }
            if x == b {
                assert(s[k as int] == x);
            }
        }
    }
}

/// The sorted, duplicate-free blocks holding the cells of `grid`.
fn sorted_occupied_blocks(grid: &VoxelGrid) -> (bs: Vec<IVec3>)
    requires
        grid.wf(),
    ensures
        sorted_blocks(bs@),
        bs@.to_set() == occupied_blocks(grid@),
        forall|i: int| 0 <= i < bs@.len() ==> block_in_range(#[trigger] bs@[i]),
{
    let cells = grid.iter_occupied();
    let mut bs: Vec<IVec3> = Vec::new();
    let mut i: usize = 0;
    while i < cells.len()
        invariant
            i <= cells.len(),
            sorted_blocks(bs@),
            forall|x: IVec3|
                bs@.contains(x) <==> exists|j: int| 0 <= j < i && block_of(cells@[j].0) == x,
            forall|j: int| 0 <= j < bs@.len() ==> block_in_range(#[trigger] bs@[j]),
        decreases cells.len() - i,
    {
        let b = block_of_exec(cells[i].0);
        let ghost old_bs = bs@;
        insert_block(&mut bs, b);
        proof {
            assert forall|x: IVec3|
                bs@.contains(x) <==> exists|j: int| 0 <= j < i + 1 && block_of(cells@[j].0) == x by {
                if bs@.contains(x) && x != b {
                    assert(old_bs.contains(x));
                }
                if exists|j: int| 0 <= j < i + 1 && block_of(cells@[j].0) == x {
                    let j = choose|j: int| 0 <= j < i + 1 && block_of(cells@[j].0) == x;
                    if j < i {
                        assert(old_bs.contains(x));
                    }
                }
            }
            assert forall|j: int| 0 <= j < bs@.len() implies block_in_range(#[trigger] bs@[j]) by {
                assert(bs@.contains(bs@[j]));
                if bs@[j] != b {
                    assert(old_bs.contains(bs@[j]));
                    let k = choose|k: int| 0 <= k < old_bs.len() && old_bs[k] == bs@[j];
                    assert(block_in_range(old_bs[k]));
                }
            }
        }
        i = i + 1;
    }
    proof {
        assert forall|x: IVec3| bs@.to_set().contains(x) <==> occupied_blocks(grid@).contains(x) by {
            if bs@.contains(x) {
                let j = choose|j: int| 0 <= j < cells@.len() && block_of(cells@[j].0) == x;
                assert(map_get(grid@, cells@[j].0) == Some(cells@[j].1));
                assert(grid@.contains_key(cells@[j].0));
            }
            if occupied_blocks(grid@).contains(x) {
                let p = choose|p: IVec3| grid@.contains_key(p) && block_of(p) == x;
                let j = choose|j: int| 0 <= j < cells@.len() && cells@[j].0 == p;
                assert(block_of(cells@[j].0) == x);
            }
        }
        assert(bs@.to_set() =~= occupied_blocks(grid@));
    }
    bs
}

/// The raw RGBA data of block `b`.
fn block_bytes(grid: &VoxelGrid, b: IVec3) -> (r: Vec<u8>)
    requires
        grid.wf(),
        block_in_range(b),
    ensures
        r@ == block_data(grid@, b),
{
    let ghost f = |i: int| voxel_byte(map_get(grid@, block_cell(b, i / 4)), i % 4);
    let mut out: Vec<u8> = Vec::new();
    let mut j: usize = 0;
    while j < BLOCK_VOXELS
        invariant
            j <= BLOCK_VOXELS,
            block_in_range(b),
            grid.wf(),
            f == (|i: int| voxel_byte(map_get(grid@, block_cell(b, i / 4)), i % 4)),
            out@ == Seq::new(4 * j as nat, f),
        decreases BLOCK_VOXELS - j,
    {
        let ji = j as i32;
        let cell = IVec3 { x: b.x * 16 + ji % 16, y: b.y * 16 + ji / 256, z: b.z * 16 + (ji / 16) % 16 };
        assert(cell == block_cell(b, j as int));
        let c = grid.get(cell);
        let ghost before = out@;
        match c {
            Some(v) => {
                out.push(v[0]);
                out.push(v[1]);
                out.push(v[2]);
                out.push(255u8);
            },
            None => {
                out.push(0u8);
                out.push(0u8);
                out.push(0u8);
                out.push(0u8);
            },
        }
        proof {
            assert forall|t: int| 0 <= t < 4 implies (#[trigger] (4 * j + t)) / 4 == j && (4 * j + t) % 4 == t by {}
            assert(out@ =~= Seq::new(4 * (j + 1) as nat, f)) by {
                assert forall|i: int| 0 <= i < 4 * (j + 1) implies out@[i] == f(i) by {
                    if i >= 4 * j {
                        assert(i == 4 * j + (i - 4 * j));
                        assert(i / 4 == j && i % 4 == i - 4 * j);
                    }
                }
            }
        }
        j = j + 1;
    }
    out
}

/// The `.gox` file holding the cells of `grid`: the `IMG` chunk, one `BL16`
/// chunk per occupied block in lexicographic block order, and one layer that
/// places every block at its own position.
pub fn export(grid: &VoxelGrid) -> (r: Vec<u8>)
    requires
        grid.wf(),
    ensures
        exists|bs: Seq<IVec3>|
            {
                &&& sorted_blocks(bs)
                &&& bs.to_set() == occupied_blocks(grid@)
                &&& r@ == gox_file(bs, grid@)
            },
{
    let bs = sorted_occupied_blocks(grid);
    let mut buf: Vec<u8> = Vec::new();
    buf.push(0x47u8);
    buf.push(0x4Fu8);
    buf.push(0x58u8);
    buf.push(0x20u8);
    push_u32_le(&mut buf, 2);
    let mut img: Vec<u8> = Vec::new();
    push_u32_le(&mut img, 0);
    write_chunk(&mut buf, &[0x49u8, 0x4D, 0x47, 0x20], img.as_slice());
    let ghost head = buf@;
    proof {
        assert(head =~= gox_magic() + le_bytes(2) + chunk_bytes(tag_img(), le_bytes(0)));
    }
    let mut i: usize = 0;
    while i < bs.len()
        invariant
            i <= bs.len(),
            grid.wf(),
            forall|j: int| 0 <= j < bs@.len() ==> block_in_range(#[trigger] bs@[j]),
            buf@ == head + blocks_part(bs@.take(i as int), grid@),
        decreases bs.len() - i,
    {
        let data = block_bytes(grid, bs[i]);
        write_chunk(&mut buf, &[0x42u8, 0x4C, 0x31, 0x36], data.as_slice());
        proof {
            let t = bs@.take(i + 1);
            assert(t.drop_last() =~= bs@.take(i as int));
            assert(t.last() == bs@[i as int]);
            assert(buf@ =~= head + blocks_part(t, grid@));
        }
        i = i + 1;
    }
    let mut layr: Vec<u8> = Vec::new();
    push_u32_le(&mut layr, bs.len() as u32);
    let ghost lhead = layr@;
    let mut k: usize = 0;
    while k < bs.len()
        invariant
            k <= bs.len(),
            forall|j: int| 0 <= j < bs@.len() ==> block_in_range(#[trigger] bs@[j]),
            layr@ == lhead + layer_refs_part(bs@.take(k as int)),
        decreases bs.len() - k,
    {
        let b = bs[k];
        assert(block_in_range(b));
        let ghost before = layr@;
        push_u32_le(&mut layr, k as u32);
        push_u32_le(&mut layr, (b.x * 16) as u32);
        push_u32_le(&mut layr, (b.z * 16) as u32);
        push_u32_le(&mut layr, (b.y * 16) as u32);
        push_zeros(&mut layr, 8);
        proof {
            let t = bs@.take(k + 1);
            assert(t.drop_last() =~= bs@.take(k as int));
            assert(t.last() == b);
            assert(layr@ =~= before + layer_ref_bytes(k as int, b));
            assert(layr@ =~= lhead + layer_refs_part(t));
        }
        k = k + 1;
    }
    let name = "name";
    let layer = "Layer 0";
    let visible = "visible";
    proof {
        reveal_strlit("name");
        reveal_strlit("Layer 0");
        reveal_strlit("visible");
        is_ascii_spec_bytes(name);
        is_ascii_spec_bytes(layer);
        is_ascii_spec_bytes(visible);
        assert(name.spec_bytes() =~= key_name());
        assert(layer.spec_bytes() =~= layer_name());
        assert(visible.spec_bytes() =~= key_visible());
    }
    write_dict_entry(&mut layr, name, layer.as_bytes());
    write_dict_entry(&mut layr, visible, &[1u8]);
    push_u32_le(&mut layr, 0);
    proof {
        assert(bs@.take(bs@.len() as int) =~= bs@);
        assert(layr@ =~= layer_data(bs@));
    }
    write_chunk(&mut buf, &[0x4Cu8, 0x41, 0x59, 0x52], layr.as_slice());
    proof {
        assert(buf@ =~= gox_file(bs@, grid@));
    }
    buf
}

// ---------------------------------------------------------------------------
// Reading
// ---------------------------------------------------------------------------

/// Why a `.gox` file was refused.
#[derive(Clone, Copy, Debug, PartialEq, Eq, Structural)]
pub enum GoxError {
    /// A read ran past the end of the file, or of the layer chunk.
    Read(ReadError),
    /// The file does not start with `GOX `.
    BadMagic,
    /// A block is stored as a PNG image; only raw RGBA blocks are read.
    PngBlock,
    /// A block chunk whose data is not one raw block.
    BadBlockSize { got: usize },
    /// The file has no layer chunk.
    NoLayer,
    /// The grid cannot take that many more cells.
    Full,
}

/// One placement from the layer chunk: which block, at which Goxel position.
#[derive(Clone, Copy, Debug, PartialEq, Eq, Structural)]
pub struct LayerRef {
    pub index: i32,
    pub x: i32,
    pub y: i32,
    pub z: i32,
}

/// What a `.gox` file holds: its raw blocks in file order, and the
/// placements of its first layer.
pub struct GoxScene {
    pub blocks: Vec<Vec<u8>>,
    pub refs: Vec<LayerRef>,
}

impl GoxScene {
    /// The blocks as byte sequences.
    pub open spec fn blocks_view(&self) -> Seq<Seq<u8>> {
        self.blocks@.map_values(|b: Vec<u8>| b@)
    }
}

/// The error of a read that starts at offset `o` and runs past the end.
pub open spec fn eof_at(o: int) -> ReadError {
    ReadError::UnexpectedEof { offset: o as usize }
}

/// The little-endian `i32` at offset `o`.
pub open spec fn i32_at(d: Seq<u8>, o: int) -> i32 {
    le_u32(d.subrange(o, o + 4)) as i32
}

/// The layer entry starting at offset `o`.
pub open spec fn layer_entry(d: Seq<u8>, o: int) -> LayerRef {
    LayerRef { index: i32_at(d, o), x: i32_at(d, o + 4), y: i32_at(d, o + 8), z: i32_at(d, o + 12) }
}

/// Where the first read fails in layer data of length `len` that ends
/// inside an entry: entries are 24 bytes after the 4-byte count, made of
/// four 4-byte fields and 8 reserved bytes, read in that order.
pub open spec fn layer_eof_offset(len: int) -> int {
    let k = (len - 4) / 24;
    let rem = (len - 4) % 24;
    4 + 24 * k + if rem < 16 {
        (rem / 4) * 4
    } else {
        16
    }
}

/// The placements a layer chunk's data lists: the count (an `i32`, taken as
/// a `usize`), then that many 24-byte entries.
pub open spec fn parse_layer(d: Seq<u8>) -> Result<Seq<LayerRef>, ReadError> {
    if d.len() < 4 {
        Err(eof_at(0))
    } else {
        let n = (le_u32(d.subrange(0, 4)) as i32) as usize as int;
        if 4 + 24 * n <= d.len() {
            Ok(Seq::new(n as nat, |k: int| layer_entry(d, 4 + 24 * k)))
        } else {
            Err(eof_at(layer_eof_offset(d.len() as int)))
        }
    }
}

/// The blocks and first-layer placements read from the chunks at `pos`
/// onwards, after `blocks` and `refs` were read before `pos`.
pub open spec fn scan_chunks(
    d: Seq<u8>,
    pos: int,
    blocks: Seq<Seq<u8>>,
    refs: Option<Seq<LayerRef>>,
) -> Result<(Seq<Seq<u8>>, Option<Seq<LayerRef>>), GoxError>
    decreases d.len() - pos,
{
    if pos < 0 || pos >= d.len() {
        Ok((blocks, refs))
    } else if pos + 4 > d.len() {
        Err(GoxError::Read(eof_at(pos)))
    } else if pos + 8 > d.len() {
        Err(GoxError::Read(eof_at(pos + 4)))
    } else {
        let size = (le_u32(d.subrange(pos + 4, pos + 8)) as i32) as usize as int;
        if pos + 8 + size > d.len() {
            Err(GoxError::Read(eof_at(pos + 8)))
        } else if pos + 12 + size > d.len() {
            Err(GoxError::Read(eof_at(pos + 8 + size)))
        } else {
            let typ = d.subrange(pos, pos + 4);
            let data = d.subrange(pos + 8, pos + 8 + size);
            let next = pos + 12 + size;
            if typ == tag_bl16() {
                if data.len() == BLOCK_BYTES {
                    scan_chunks(d, next, blocks.push(data), refs)
                } else if data.len() >= 4 && data.subrange(0, 4) == png_magic() {
                    Err(GoxError::PngBlock)
                } else {
                    Err(GoxError::BadBlockSize { got: data.len() as usize })
                }
            } else if typ == tag_layr() && refs is None {
                match parse_layer(data) {
                    Err(e) => Err(GoxError::Read(e)),
                    Ok(rs) => scan_chunks(d, next, blocks, Some(rs)),
                }
            } else {
                scan_chunks(d, next, blocks, refs)
            }
        }
    }
}

/// What a `.gox` file holds: its raw blocks, in order, and the placements
/// of its first layer chunk. The version is not checked.
pub open spec fn gox_parse(d: Seq<u8>) -> Result<(Seq<Seq<u8>>, Seq<LayerRef>), GoxError> {
    if d.len() < 4 {
        Err(GoxError::Read(eof_at(0)))
    } else if d.subrange(0, 4) != gox_magic() {
        Err(GoxError::BadMagic)
    } else if d.len() < 8 {
        Err(GoxError::Read(eof_at(4)))
    } else {
        match scan_chunks(d, 8, Seq::empty(), None) {
            Err(e) => Err(e),
            Ok((bl, None)) => Err(GoxError::NoLayer),
            Ok((bl, Some(rs))) => Ok((bl, rs)),
        }
    }
}

/// A layer chunk whose entry `k` (of `n`) ends inside the field that starts
/// `s` bytes into the entry and ends `e` bytes into it fails to parse there.
proof fn lemma_layer_eof(d: Seq<u8>, n: int, k: int, s: int, e: int)
    requires
        d.len() >= 4,
        n == (le_u32(d.subrange(0, 4)) as i32) as usize as int,
        0 <= k < n,
        4 + 24 * k + s <= d.len() < 4 + 24 * k + e,
        (s == 0 && e == 4) || (s == 4 && e == 8) || (s == 8 && e == 12) || (s == 12 && e == 16) || (s
            == 16 && e == 24),
    ensures
        parse_layer(d) == Err::<Seq<LayerRef>, ReadError>(eof_at(4 + 24 * k + s)),
{
    let len = d.len() as int;
    let r = len - 4 - 24 * k;
    assert((len - 4) / 24 == k && (len - 4) % 24 == r) by (nonlinear_arith)
        requires
            0 <= r < 24,
            r == len - 4 - 24 * k,
    ;
    assert(r < 16 ==> (r / 4) * 4 == s) by (nonlinear_arith)
        requires
            s <= r < e,
            (s == 0 && e == 4) || (s == 4 && e == 8) || (s == 8 && e == 12) || (s == 12 && e == 16)
                || (s == 16 && e == 24),
    ;
    assert(layer_eof_offset(len) == 4 + 24 * k + s);
    assert(len < 4 + 24 * n);
}

/// Reads a layer chunk's placements.
fn read_layer(data: &[u8]) -> (r: Result<Vec<LayerRef>, ReadError>)
    ensures
        match r {
            Ok(v) => parse_layer(data@) == Ok::<Seq<LayerRef>, ReadError>(v@),
            Err(e) => parse_layer(data@) == Err::<Seq<LayerRef>, ReadError>(e),
        },
{
    let ghost d = data@;
    let mut lr = LeReader::new(data);
    let n = match lr.i32() {
        Ok(v) => v as usize,
        Err(e) => return Err(e),
    };
    assert(d.subrange(0, 4) == lr.data().subrange(0, 4));
    let mut out: Vec<LayerRef> = Vec::new();
    let mut k: usize = 0;
    while k < n
        invariant
            lr.wf(),
            lr.data() == d,
            d == data@,
            n as int == (le_u32(d.subrange(0, 4)) as i32) as usize as int,
            d.len() >= 4,
            k <= n,
            lr.pos() == 4 + 24 * k,
            out@ == Seq::new(k as nat, |j: int| layer_entry(d, 4 + 24 * j)),
        decreases n - k,
    {
        let ghost o = lr.pos();
        let index = match lr.i32() {
            Ok(v) => v,
            Err(e) => {
                proof {
                    lemma_layer_eof(d, n as int, k as int, 0, 4);
                    assert(e == eof_at(o + 0));
                }
                return Err(e);
            },
        };
        let x = match lr.i32() {
            Ok(v) => v,
            Err(e) => {
                proof {
                    lemma_layer_eof(d, n as int, k as int, 4, 8);
                    assert(e == eof_at(o + 4));
                }
                return Err(e);
            },
        };
        let y = match lr.i32() {
            Ok(v) => v,
            Err(e) => {
                proof {
                    lemma_layer_eof(d, n as int, k as int, 8, 12);
                    assert(e == eof_at(o + 8));
                }
                return Err(e);
            },
        };
        let z = match lr.i32() {
            Ok(v) => v,
            Err(e) => {
                proof {
                    lemma_layer_eof(d, n as int, k as int, 12, 16);
                    assert(e == eof_at(o + 12));
                }
                return Err(e);
            },
        };
        match lr.bytes(8) {
            Ok(_) => {},
            Err(e) => {
                proof {
                    lemma_layer_eof(d, n as int, k as int, 16, 24);
                    assert(e == eof_at(o + 16));
                }
                return Err(e);
            },
        }
        let entry = LayerRef { index, x, y, z };
        assert(entry == layer_entry(d, o));
        out.push(entry);
        proof {
            assert(out@ =~= Seq::new((k + 1) as nat, |j: int| layer_entry(d, 4 + 24 * j)));
        }
        k = k + 1;
    }
    Ok(out)
}

/// The optional placements as a sequence.
pub open spec fn refs_view(refs: Option<Vec<LayerRef>>) -> Option<Seq<LayerRef>> {
    match refs {
        Some(v) => Some(v@),
        None => None,
    }
}

/// Reads a `.gox` file: its raw blocks, in file order, and the placements
/// of its first layer chunk. Fails on a truncated file or layer chunk, a
/// wrong magic, a block that is PNG-encoded or of the wrong size, or a file
/// without a layer chunk.
pub fn parse(bytes: &[u8]) -> (r: Result<GoxScene, GoxError>)
    ensures
        match r {
            Ok(s) => gox_parse(bytes@) == Ok::<(Seq<Seq<u8>>, Seq<LayerRef>), GoxError>(
                (s.blocks_view(), s.refs@),
            ),
            Err(e) => gox_parse(bytes@) == Err::<(Seq<Seq<u8>>, Seq<LayerRef>), GoxError>(e),
        },
        !(r matches Err(GoxError::Full)),
{
    let ghost d = bytes@;
    let mut r = LeReader::new(bytes);
    let magic = match r.bytes(4) {
        Ok(m) => m,
        Err(e) => return Err(GoxError::Read(e)),
    };
    if !(magic[0] == 0x47 && magic[1] == 0x4F && magic[2] == 0x58 && magic[3] == 0x20) {
        proof {
            if d.subrange(0, 4) == gox_magic() {
                assert(magic@[0] == d.subrange(0, 4)[0]);
            }
        }
        return Err(GoxError::BadMagic);
    }
    proof {
        assert(d.subrange(0, 4) =~= gox_magic());
    }
    match r.i32() {
        Ok(_) => {},
        Err(e) => return Err(GoxError::Read(e)),
    }
    let mut blocks: Vec<Vec<u8>> = Vec::new();
    let mut refs: Option<Vec<LayerRef>> = None;
    proof {
        assert(blocks@.map_values(|b: Vec<u8>| b@) =~= Seq::<Seq<u8>>::empty());
    }
    while !r.eof()
        invariant
            r.wf(),
            r.data() == d,
            d == bytes@,
            8 <= r.pos() <= d.len(),
            d.len() >= 8,
            d.subrange(0, 4) == gox_magic(),
            scan_chunks(d, r.pos(), blocks@.map_values(|b: Vec<u8>| b@), refs_view(refs))
                == scan_chunks(d, 8, Seq::empty(), None),
        decreases d.len() - r.pos(),
    {
        let ghost pos = r.pos();
        let ghost bv = blocks@.map_values(|b: Vec<u8>| b@);
        let t = match r.bytes(4) {
            Ok(t) => t,
            Err(e) => return Err(GoxError::Read(e)),
        };
        let size = match r.i32() {
            Ok(v) => v as usize,
            Err(e) => return Err(GoxError::Read(e)),
        };
        let data = match r.bytes(size) {
            Ok(x) => x,
            Err(e) => return Err(GoxError::Read(e)),
        };
        match r.i32() {
            Ok(_) => {},
            Err(e) => return Err(GoxError::Read(e)),
        }
        let ghost typ = d.subrange(pos, pos + 4);
        assert(t@ == typ);
        assert(data@ == d.subrange(pos + 8, pos + 8 + size));
        let is_bl16 = t[0] == 0x42 && t[1] == 0x4C && t[2] == 0x31 && t[3] == 0x36;
        let is_layr = t[0] == 0x4C && t[1] == 0x41 && t[2] == 0x59 && t[3] == 0x52;
        proof {
            if is_bl16 {
                assert(typ =~= tag_bl16());
            } else {
                if typ == tag_bl16() {
                    assert(t@[0] == typ[0] && t@[1] == typ[1] && t@[2] == typ[2] && t@[3] == typ[3]);
                }
            }
            if is_layr {
                assert(typ =~= tag_layr());
            } else {
                if typ == tag_layr() {
                    assert(t@[0] == typ[0] && t@[1] == typ[1] && t@[2] == typ[2] && t@[3] == typ[3]);
                }
            }
        }
        if is_bl16 {
            if data.len() == BLOCK_BYTES {
                let mut block: Vec<u8> = Vec::new();
                push_all(&mut block, data);
                blocks.push(block);
                proof {
                    assert(blocks@.map_values(|b: Vec<u8>| b@) =~= bv.push(data@));
                }
            } else if data.len() >= 4 && data[0] == 0x89 && data[1] == 0x50 && data[2] == 0x4E
                && data[3] == 0x47 {
                proof {
                    assert(data@.subrange(0, 4) =~= png_magic());
                }
                return Err(GoxError::PngBlock);
            } else {
                proof {
                    if data@.len() >= 4 && data@.subrange(0, 4) == png_magic() {
                        assert(data@[0] == data@.subrange(0, 4)[0]);
                        assert(data@[1] == data@.subrange(0, 4)[1]);
                        assert(data@[2] == data@.subrange(0, 4)[2]);
                        assert(data@[3] == data@.subrange(0, 4)[3]);
                    }
                }
                return Err(GoxError::BadBlockSize { got: data.len() });
            }
        } else if is_layr && refs.is_none() {
            match read_layer(data) {
                Ok(v) => {
                    refs = Some(v);
                },
                Err(e) => return Err(GoxError::Read(e)),
            }
        }
    }
    match refs {
        None => Err(GoxError::NoLayer),
        Some(v) => Ok(GoxScene { blocks, refs: v }),
    }
}

// ---------------------------------------------------------------------------
// Placing blocks
// ---------------------------------------------------------------------------

/// The grid cell that voxel `j` of a block placed by `r` lands on: Goxel
/// `(gx, gy, gz)` is grid `(gx, gz, gy)`, coordinates wrapping at the `i32`
/// range.
pub open spec fn placed_cell(r: LayerRef, j: int) -> IVec3 {
    IVec3 {
        x: r.x.wrapping_add((j % 16) as i32),
        y: r.z.wrapping_add((j / 256) as i32),
        z: r.y.wrapping_add(((j / 16) % 16) as i32),
    }
}

/// Voxel `j` of a block is drawn when its alpha byte is not zero.
pub open spec fn voxel_drawn(block: Seq<u8>, j: int) -> bool {
    block[4 * j + 3] != 0
}

/// The opaque color of voxel `j` of a block.
pub open spec fn voxel_color(block: Seq<u8>, j: int) -> Color8 {
    [block[4 * j], block[4 * j + 1], block[4 * j + 2], 255u8]
}

/// `m` after writing the drawn voxels among the first `n` of a block placed
/// by `r`, in index order; voxels that land below the floor are dropped.
pub open spec fn place_voxels(m: Map<IVec3, Color8>, block: Seq<u8>, r: LayerRef, n: int) -> Map<
    IVec3,
    Color8,
>
    decreases n,
{
    if n <= 0 {
        m
    } else {
        let m1 = place_voxels(m, block, r, n - 1);
        if voxel_drawn(block, n - 1) {
            grid_set(m1, placed_cell(r, n - 1), Some(voxel_color(block, n - 1)))
        } else {
            m1
        }
    }
}

/// How many drawn voxels among the first `n` land below the floor.
pub open spec fn dropped_voxels(block: Seq<u8>, r: LayerRef, n: int) -> nat
    decreases n,
{
    if n <= 0 {
        0
    } else {
        dropped_voxels(block, r, n - 1) + if voxel_drawn(block, n - 1) && placed_cell(r, n - 1).y < 0 {
            1nat
        } else {
            0nat
        }
    }
}

/// The block a placement names, if the index is in range.
pub open spec fn ref_block(blocks: Seq<Seq<u8>>, r: LayerRef) -> Option<Seq<u8>> {
    if (r.index as usize as int) < blocks.len() {
        Some(blocks[r.index as usize as int])
    } else {
        None
    }
}

/// `m` after applying the first `k` placements, in order. A placement whose
/// index names no block is skipped.
pub open spec fn place_refs(m: Map<IVec3, Color8>, blocks: Seq<Seq<u8>>, refs: Seq<LayerRef>, k: int) -> Map<
    IVec3,
    Color8,
>
    decreases k,
{
    if k <= 0 {
        m
    } else {
        let m1 = place_refs(m, blocks, refs, k - 1);
        match ref_block(blocks, refs[k - 1]) {
            Some(b) => place_voxels(m1, b, refs[k - 1], BLOCK_VOXELS as int),
            None => m1,
        }
    }
}

/// How many voxels the first `k` placements drop below the floor.
pub open spec fn dropped_refs(blocks: Seq<Seq<u8>>, refs: Seq<LayerRef>, k: int) -> nat
    decreases k,
{
    if k <= 0 {
        0
    } else {
        dropped_refs(blocks, refs, k - 1) + match ref_block(blocks, refs[k - 1]) {
            Some(b) => dropped_voxels(b, refs[k - 1], BLOCK_VOXELS as int),
            None => 0nat,
        }
    }
}

/// Every block is one raw block.
pub open spec fn blocks_ok(blocks: Seq<Seq<u8>>) -> bool {
    forall|i: int| 0 <= i < blocks.len() ==> (#[trigger] blocks[i]).len() == BLOCK_BYTES
}

proof fn lemma_dropped_voxels_bound(block: Seq<u8>, r: LayerRef, n: int)
    requires
        n >= 0,
    ensures
        dropped_voxels(block, r, n) <= n,
    decreases n,
{
    if n > 0 {
        lemma_dropped_voxels_bound(block, r, n - 1);
    }
}

/// Writes the drawn voxels of one block placed by `r`; returns how many
/// landed below the floor.
fn place_block(grid: &mut VoxelGrid, block: &Vec<u8>, r: LayerRef) -> (dropped: usize)
    requires
        old(grid).wf(),
        block@.len() == BLOCK_BYTES,
        old(grid)@.dom().len() + BLOCK_VOXELS < u32::MAX,
    ensures
        final(grid).wf(),
        old(grid).dirty_view().subset_of(final(grid).dirty_view()),
        changes_marked(old(grid)@, final(grid)@, final(grid).dirty_view()),
        final(grid)@ == place_voxels(old(grid)@, block@, r, BLOCK_VOXELS as int),
        final(grid)@.dom().len() <= old(grid)@.dom().len() + BLOCK_VOXELS,
        dropped == dropped_voxels(block@, r, BLOCK_VOXELS as int),
{
    proof {
        lemma_no_change_marked(grid@, grid.dirty_view());
    }
    proof {
        grid.lemma_finite();
    }
    let ghost m0 = grid@;
    let ghost d0_marks = grid.dirty_view();
    let mut dropped: usize = 0;
    let mut j: usize = 0;
    while j < BLOCK_VOXELS
        invariant
            d0_marks.subset_of(grid.dirty_view()),
            changes_marked(m0, grid@, grid.dirty_view()),
            j <= BLOCK_VOXELS,
            block@.len() == BLOCK_BYTES,
            grid.wf(),
            m0.dom().finite(),
            m0.dom().len() + BLOCK_VOXELS < u32::MAX,
            grid@ == place_voxels(m0, block@, r, j as int),
            grid@.dom().len() <= m0.dom().len() + j,
            dropped == dropped_voxels(block@, r, j as int),
            dropped <= j,
        decreases BLOCK_VOXELS - j,
    {
        if block[4 * j + 3] != 0 {
            let ji = j as i32;
            let cell = IVec3 {
                x: r.x.wrapping_add(ji % 16),
                y: r.z.wrapping_add(ji / 256),
                z: r.y.wrapping_add((ji / 16) % 16),
            };
            assert(cell == placed_cell(r, j as int));
            if cell.y < 0 {
                dropped = dropped + 1;
            }
            proof {
                grid.lemma_finite();
                lemma_grid_set_len(grid@, cell, Some(voxel_color(block@, j as int)));
            }
            let ghost mb_marks = grid@;
            let ghost db_marks = grid.dirty_view();
            grid.set(cell, Some([block[4 * j], block[4 * j + 1], block[4 * j + 2], 255u8]));
            proof {
                lemma_write_marks(m0, mb_marks, db_marks, cell, Some([block@[4 * j], block@[4 * j + 1], block@[4 * j + 2], 255u8]), grid.dirty_view());
            }
        }
        j = j + 1;
    }
    dropped
}

proof fn lemma_scan_blocks_ok(d: Seq<u8>, pos: int, blocks: Seq<Seq<u8>>, refs: Option<Seq<LayerRef>>)
    requires
        blocks_ok(blocks),
    ensures
        scan_chunks(d, pos, blocks, refs) matches Ok((bl, rs)) ==> blocks_ok(bl),
    decreases d.len() - pos,
{
    if pos < 0 || pos >= d.len() || pos + 8 > d.len() {
    } else {
        let size = (le_u32(d.subrange(pos + 4, pos + 8)) as i32) as usize as int;
        if pos + 12 + size <= d.len() {
            let typ = d.subrange(pos, pos + 4);
            let data = d.subrange(pos + 8, pos + 8 + size);
            let next = pos + 12 + size;
            if typ == tag_bl16() {
                if data.len() == BLOCK_BYTES {
                    assert(blocks_ok(blocks.push(data)));
                    lemma_scan_blocks_ok(d, next, blocks.push(data), refs);
                }
            } else if typ == tag_layr() && refs is None {
                match parse_layer(data) {
                    Err(e) => {},
                    Ok(rs) => lemma_scan_blocks_ok(d, next, blocks, Some(rs)),
                }
            } else {
                lemma_scan_blocks_ok(d, next, blocks, refs);
            }
        }
    }
}

/// Every block a file parses to is one raw block.
pub proof fn lemma_parsed_blocks_ok(d: Seq<u8>)
    ensures
        gox_parse(d) matches Ok((bl, rs)) ==> blocks_ok(bl),
{
    if d.len() >= 8 && d.subrange(0, 4) == gox_magic() {
        lemma_scan_blocks_ok(d, 8, Seq::empty(), None);
    }
}

/// Applies the placements of a `.gox` scene to `grid`, in order: each
/// placement whose index names a block writes that block's drawn voxels at
/// its position. Returns how many voxels landed below the floor and were
/// dropped.
pub fn apply(grid: &mut VoxelGrid, scene: &GoxScene) -> (dropped: usize)
    requires
        old(grid).wf(),
        blocks_ok(scene.blocks_view()),
        old(grid)@.dom().len() + BLOCK_VOXELS * scene.refs@.len() < u32::MAX,
    ensures
        final(grid).wf(),
        old(grid).dirty_view().subset_of(final(grid).dirty_view()),
        changes_marked(old(grid)@, final(grid)@, final(grid).dirty_view()),
        final(grid)@ == place_refs(old(grid)@, scene.blocks_view(), scene.refs@, scene.refs@.len() as int),
        dropped == dropped_refs(scene.blocks_view(), scene.refs@, scene.refs@.len() as int),
{
    proof {
        lemma_no_change_marked(grid@, grid.dirty_view());
    }
    proof {
        grid.lemma_finite();
    }
    let ghost m0 = grid@;
    let ghost d0_marks = grid.dirty_view();
    let ghost bv = scene.blocks_view();
    let mut dropped: usize = 0;
    let mut k: usize = 0;
    while k < scene.refs.len()
        invariant
            d0_marks.subset_of(grid.dirty_view()),
            changes_marked(m0, grid@, grid.dirty_view()),
            k <= scene.refs@.len(),
            bv == scene.blocks_view(),
            blocks_ok(bv),
            grid.wf(),
            m0.dom().finite(),
            m0.dom().len() + BLOCK_VOXELS * scene.refs@.len() < u32::MAX,
            grid@ == place_refs(m0, bv, scene.refs@, k as int),
            grid@.dom().len() <= m0.dom().len() + BLOCK_VOXELS * k,
            dropped == dropped_refs(bv, scene.refs@, k as int),
            dropped <= BLOCK_VOXELS * k,
        decreases scene.refs.len() - k,
    {
        let r = scene.refs[k];
        let idx = r.index as usize;
        proof {
            assert(BLOCK_VOXELS * (k + 1) == BLOCK_VOXELS * k + BLOCK_VOXELS) by (nonlinear_arith);
            assert(BLOCK_VOXELS * (k + 1) <= BLOCK_VOXELS * scene.refs@.len()) by (nonlinear_arith)
                requires
                    k + 1 <= scene.refs@.len(),
            ;
        }
        if idx < scene.blocks.len() {
            let block = &scene.blocks[idx];
            proof {
                assert(bv[idx as int] == block@);
                assert(block@.len() == BLOCK_BYTES);
                lemma_dropped_voxels_bound(block@, r, BLOCK_VOXELS as int);
            }
            let ghost mb_marks = grid@;
            let ghost db_marks = grid.dirty_view();
            let d = place_block(grid, block, r);
            proof {
                lemma_marks_chain(m0, mb_marks, grid@, db_marks, grid.dirty_view());
            }
            dropped = dropped + d;
        }
        k = k + 1;
    }
    dropped
}

/// Reads a `.gox` file and places its blocks in `grid` (see `parse` and
/// `apply`). On success returns how many voxels were dropped below the
/// floor. A file whose blocks could overfill the grid's cell counter is
/// refused with `Full`. On failure the grid is untouched.
pub fn import(bytes: &[u8], grid: &mut VoxelGrid) -> (r: Result<usize, GoxError>)
    requires
        old(grid).wf(),
    ensures
        final(grid).wf(),
        old(grid).dirty_view().subset_of(final(grid).dirty_view()),
        changes_marked(old(grid)@, final(grid)@, final(grid).dirty_view()),
        match r {
            Ok(dropped) => {
                &&& gox_parse(bytes@) matches Ok((bl, rs))
                &&& old(grid)@.dom().len() + BLOCK_VOXELS * rs.len() < u32::MAX
                &&& final(grid)@ == place_refs(old(grid)@, bl, rs, rs.len() as int)
                &&& dropped == dropped_refs(bl, rs, rs.len() as int)
            },
            Err(GoxError::Full) => {
                &&& gox_parse(bytes@) matches Ok((bl, rs))
                &&& old(grid)@.dom().len() + BLOCK_VOXELS * rs.len() >= u32::MAX
                &&& final(grid)@ == old(grid)@
            },
            Err(e) => {
                &&& gox_parse(bytes@) == Err::<(Seq<Seq<u8>>, Seq<LayerRef>), GoxError>(e)
                &&& final(grid)@ == old(grid)@
            },
        },
{
    proof {
        lemma_no_change_marked(grid@, grid.dirty_view());
    }
    match parse(bytes) {
        Err(e) => Err(e),
        Ok(scene) => {
            proof {
                lemma_parsed_blocks_ok(bytes@);
                grid.lemma_finite();
            }
            let n = grid.count() as u64;
            let refs = scene.refs.len() as u64;
            if refs >= 0x1_0000_0000 || n + (BLOCK_VOXELS as u64) * refs >= 0xffff_ffff {
                proof {
                    if refs >= 0x1_0000_0000 {
                        assert(BLOCK_VOXELS * scene.refs@.len() >= 0x1_0000_0000) by (nonlinear_arith)
                            requires
                                scene.refs@.len() >= 0x1_0000_0000,
                        ;
                    }
                }
                return Err(GoxError::Full);
            }
            Ok(apply(grid, &scene))
        },
    }
}

// ---------------------------------------------------------------------------
// Round trip
// ---------------------------------------------------------------------------

/// `m` with every color made opaque.
pub open spec fn opaque(m: Map<IVec3, Color8>) -> Map<IVec3, Color8> {
    Map::new(|p: IVec3| m.contains_key(p), |p: IVec3| [m[p][0], m[p][1], m[p][2], 255u8])
}

/// The raw data of each block of `bs`, in order.
pub open spec fn blocks_data(bs: Seq<IVec3>, m: Map<IVec3, Color8>) -> Seq<Seq<u8>> {
    bs.map_values(|b: IVec3| block_data(m, b))
}

/// The placements the layer chunk of `bs` lists.
pub open spec fn layer_refs(bs: Seq<IVec3>) -> Seq<LayerRef> {
    Seq::new(
        bs.len(),
        |k: int| LayerRef { index: k as i32, x: (bs[k].x * 16) as i32, y: (bs[k].z * 16) as i32, z: (bs[k].y * 16) as i32 },
    )
}

proof fn lemma_i32_roundtrip(x: i32)
    ensures
        (x as u32) as i32 == x,
{
    assert((x as u32) as i32 == x) by (bit_vector);
}

proof fn lemma_le_i32(d: Seq<u8>, o: int, x: i32)
    requires
        0 <= o,
        o + 4 <= d.len(),
        d.subrange(o, o + 4) == le_bytes(x as u32),
    ensures
        i32_at(d, o) == x,
{
    crate::bytes::lemma_le_roundtrip(x as u32);
    lemma_i32_roundtrip(x);
}

proof fn lemma_chunk_len(typ: Seq<u8>, data: Seq<u8>)
    requires
        typ.len() == 4,
    ensures
        chunk_bytes(typ, data).len() == 12 + data.len(),
{
}

/// Reading a chunk that the writer framed gives back its type and data.
proof fn lemma_chunk_step(d: Seq<u8>, pos: int, typ: Seq<u8>, data: Seq<u8>)
    requires
        0 <= pos,
        typ.len() == 4,
        data.len() <= i32::MAX,
        pos + 12 + data.len() <= d.len(),
        d.subrange(pos, pos + 12 + data.len()) == chunk_bytes(typ, data),
    ensures
        d.subrange(pos, pos + 4) == typ,
        (le_u32(d.subrange(pos + 4, pos + 8)) as i32) as usize as int == data.len(),
        d.subrange(pos + 8, pos + 8 + data.len()) == data,
{
    let c = chunk_bytes(typ, data);
    let n = data.len() as int;
    assert(d.subrange(pos, pos + 4) =~= c.subrange(0, 4));
    assert(c.subrange(0, 4) =~= typ);
    assert(d.subrange(pos + 4, pos + 8) =~= c.subrange(4, 8));
    assert(c.subrange(4, 8) =~= le_bytes(data.len() as u32));
    crate::bytes::lemma_le_roundtrip(data.len() as u32);
    assert(d.subrange(pos + 8, pos + 8 + n) =~= c.subrange(8, 8 + n));
    assert(c.subrange(8, 8 + n) =~= data);
}

proof fn lemma_blocks_part_len(bs: Seq<IVec3>, m: Map<IVec3, Color8>)
    ensures
        blocks_part(bs, m).len() == (12 + BLOCK_BYTES) * bs.len(),
    decreases bs.len(),
{
    if bs.len() > 0 {
        lemma_blocks_part_len(bs.drop_last(), m);
        lemma_chunk_len(tag_bl16(), block_data(m, bs.last()));
    }
}

/// Reading the block chunks gives back each block's data, in order.
proof fn lemma_scan_blocks(d: Seq<u8>, pos: int, bs: Seq<IVec3>, m: Map<IVec3, Color8>, acc: Seq<Seq<u8>>)
    requires
        0 <= pos,
        pos + blocks_part(bs, m).len() <= d.len(),
        d.subrange(pos, pos + blocks_part(bs, m).len()) == blocks_part(bs, m),
    ensures
        scan_chunks(d, pos, acc, None) == scan_chunks(d, pos + blocks_part(bs, m).len(), acc + blocks_data(bs, m), None),
    decreases bs.len(),
{
    lemma_blocks_part_len(bs, m);
    if bs.len() == 0 {
        assert(acc + blocks_data(bs, m) =~= acc);
    } else {
        let b2 = bs.drop_last();
        let bp2 = blocks_part(b2, m);
        let data = block_data(m, bs.last());
        lemma_blocks_part_len(b2, m);
        let n2 = bp2.len() as int;
        assert(d.subrange(pos, pos + n2) =~= blocks_part(bs, m).subrange(0, n2));
        assert(blocks_part(bs, m).subrange(0, n2) =~= bp2);
        lemma_scan_blocks(d, pos, b2, m, acc);
        let q = pos + n2;
        assert(d.subrange(q, q + 12 + data.len()) =~= blocks_part(bs, m).subrange(n2, n2 + 12 + data.len()));
        assert(blocks_part(bs, m).subrange(n2, n2 + 12 + data.len()) =~= chunk_bytes(tag_bl16(), data));
        lemma_chunk_step(d, q, tag_bl16(), data);
        assert((acc + blocks_data(b2, m)).push(data) =~= acc + blocks_data(bs, m));
    }
}

#[verifier::spinoff_prover]
#[verifier::rlimit(30)]
proof fn lemma_layer_refs_part(bs: Seq<IVec3>, k: int)
    requires
        0 <= k < bs.len(),
    ensures
        layer_refs_part(bs).len() == 24 * bs.len(),
        layer_refs_part(bs).subrange(24 * k, 24 * k + 24) == layer_ref_bytes(k, bs[k]),
    decreases bs.len(),
{
    let b2 = bs.drop_last();
    if k < bs.len() - 1 {
        lemma_layer_refs_part(b2, k);
        assert(layer_refs_part(bs).subrange(24 * k, 24 * k + 24) =~= layer_refs_part(b2).subrange(24 * k, 24 * k + 24));
    } else {
        if b2.len() > 0 {
            lemma_layer_refs_part(b2, 0);
        }
        assert(layer_refs_part(bs).subrange(24 * k, 24 * k + 24) =~= layer_ref_bytes(k, bs[k]));
    }
}

proof fn lemma_layer_slot(bs: Seq<IVec3>, k: int)
    requires
        0 <= k < bs.len(),
    ensures
        layer_data(bs).len() >= 4 + 24 * bs.len(),
        layer_data(bs).subrange(4 + 24 * k, 4 + 24 * k + 24) == layer_ref_bytes(k, bs[k]),
{
    lemma_layer_refs_part(bs, k);
    let d = layer_data(bs);
    let r = layer_refs_part(bs);
    assert(d.subrange(4 + 24 * k, 4 + 24 * k + 24) =~= r.subrange(24 * k, 24 * k + 24));
}

proof fn lemma_ref_fields(k: int, b: IVec3)
    ensures
        layer_ref_bytes(k, b).subrange(0, 4) == le_bytes(k as u32),
        layer_ref_bytes(k, b).subrange(4, 8) == le_bytes((b.x * 16) as u32),
        layer_ref_bytes(k, b).subrange(8, 12) == le_bytes((b.z * 16) as u32),
        layer_ref_bytes(k, b).subrange(12, 16) == le_bytes((b.y * 16) as u32),
{
    let e = layer_ref_bytes(k, b);
    assert(e.subrange(0, 4) =~= le_bytes(k as u32));
    assert(e.subrange(4, 8) =~= le_bytes((b.x * 16) as u32));
    assert(e.subrange(8, 12) =~= le_bytes((b.z * 16) as u32));
    assert(e.subrange(12, 16) =~= le_bytes((b.y * 16) as u32));
}

proof fn lemma_field(d: Seq<u8>, o: int, e: Seq<u8>, off: int, x: i32)
    requires
        0 <= o,
        o + 24 <= d.len(),
        d.subrange(o, o + 24) == e,
        0 <= off <= 20,
        e.subrange(off, off + 4) == le_bytes(x as u32),
    ensures
        i32_at(d, o + off) == x,
{
    assert(d.subrange(o + off, o + off + 4) =~= e.subrange(off, off + 4));
    lemma_le_i32(d, o + off, x);
}

proof fn lemma_layer_entry(bs: Seq<IVec3>, k: int)
    requires
        0 <= k < bs.len(),
        24 * bs.len() + 64 <= i32::MAX,
        block_in_range(bs[k]),
    ensures
        layer_entry(layer_data(bs), 4 + 24 * k) == layer_refs(bs)[k],
{
    let d = layer_data(bs);
    let o = 4 + 24 * k;
    let b = bs[k];
    let e = layer_ref_bytes(k, b);
    lemma_layer_slot(bs, k);
    lemma_ref_fields(k, b);
    assert((k as i32) as u32 == k as u32);
    lemma_field(d, o, e, 0, k as i32);
    lemma_field(d, o, e, 4, (b.x * 16) as i32);
    lemma_field(d, o, e, 8, (b.z * 16) as i32);
    lemma_field(d, o, e, 12, (b.y * 16) as i32);
}

/// Reading the layer chunk gives back one placement per block, at the
/// block's own position.
proof fn lemma_parse_layer(bs: Seq<IVec3>)
    requires
        24 * bs.len() + 64 <= i32::MAX,
        forall|i: int| 0 <= i < bs.len() ==> block_in_range(#[trigger] bs[i]),
    ensures
        parse_layer(layer_data(bs)) == Ok::<Seq<LayerRef>, ReadError>(layer_refs(bs)),
{
    let d = layer_data(bs);
    let n = bs.len() as int;
    if n > 0 {
        lemma_layer_refs_part(bs, 0);
    }
    assert(layer_refs_part(bs).len() == 24 * n);
    assert(d.subrange(0, 4) =~= le_bytes(n as u32));
    crate::bytes::lemma_le_roundtrip(n as u32);
    let rs = Seq::new(n as nat, |k: int| layer_entry(d, 4 + 24 * k));
    assert forall|k: int| 0 <= k < n implies #[trigger] rs[k] == layer_refs(bs)[k] by {
        lemma_layer_entry(bs, k);
    }
    assert(rs =~= layer_refs(bs));
}

proof fn lemma_layer_data_len(bs: Seq<IVec3>)
    ensures
        layer_data(bs).len() == 24 * bs.len() + 43,
{
    if bs.len() > 0 {
        lemma_layer_refs_part(bs, 0);
    }
    assert(layer_refs_part(bs).len() == 24 * bs.len());
}

/// Where each part of a written file lies.
proof fn lemma_file_shape(bs: Seq<IVec3>, m: Map<IVec3, Color8>)
    ensures
        gox_file(bs, m).len() == 24 + blocks_part(bs, m).len() + 12 + layer_data(bs).len(),
        gox_file(bs, m).subrange(0, 4) == gox_magic(),
        gox_file(bs, m).subrange(8, 24) == chunk_bytes(tag_img(), le_bytes(0)),
        gox_file(bs, m).subrange(24, 24 + blocks_part(bs, m).len() as int) == blocks_part(bs, m),
        gox_file(bs, m).subrange(24 + blocks_part(bs, m).len() as int, gox_file(bs, m).len() as int) == chunk_bytes(
            tag_layr(),
            layer_data(bs),
        ),
{
    let f = gox_file(bs, m);
    let bp = blocks_part(bs, m);
    let q: int = 24 + bp.len() as int;
    assert(f.subrange(0, 4) =~= gox_magic());
    assert(f.subrange(8, 24) =~= chunk_bytes(tag_img(), le_bytes(0)));
    assert(f.subrange(24, q) =~= bp);
    assert(f.subrange(q, f.len() as int) =~= chunk_bytes(tag_layr(), layer_data(bs)));
}

proof fn lemma_scan_img(f: Seq<u8>, acc: Seq<Seq<u8>>)
    requires
        f.len() >= 24,
        f.subrange(8, 24) == chunk_bytes(tag_img(), le_bytes(0)),
    ensures
        scan_chunks(f, 8, acc, None) == scan_chunks(f, 24, acc, None),
{
    lemma_chunk_step(f, 8, tag_img(), le_bytes(0));
    assert(tag_img()[0] != tag_bl16()[0] && tag_img()[0] != tag_layr()[0]);
    assert(f.subrange(8, 12) != tag_bl16()) by {
        assert(f.subrange(8, 12)[0] == tag_img()[0]);
    }
    assert(f.subrange(8, 12) != tag_layr()) by {
        assert(f.subrange(8, 12)[0] == tag_img()[0]);
    }
}

proof fn lemma_scan_layr(f: Seq<u8>, q: int, acc: Seq<Seq<u8>>, ld: Seq<u8>, rs: Seq<LayerRef>)
    requires
        0 <= q,
        ld.len() <= i32::MAX,
        f.len() == q + 12 + ld.len(),
        f.subrange(q, q + 12 + ld.len()) == chunk_bytes(tag_layr(), ld),
        parse_layer(ld) == Ok::<Seq<LayerRef>, ReadError>(rs),
    ensures
        scan_chunks(f, q, acc, None) == Ok::<(Seq<Seq<u8>>, Option<Seq<LayerRef>>), GoxError>((acc, Some(rs))),
{
    lemma_chunk_step(f, q, tag_layr(), ld);
    assert(f.subrange(q, q + 4) != tag_bl16()) by {
        assert(f.subrange(q, q + 4)[0] == tag_layr()[0]);
    }
    assert(scan_chunks(f, q + 12 + ld.len(), acc, Some(rs)) == Ok::<(Seq<Seq<u8>>, Option<Seq<LayerRef>>), GoxError>((acc, Some(rs))));
}

/// Reading a file the writer produced gives back its blocks and its
/// placements.
proof fn lemma_parse_file(bs: Seq<IVec3>, m: Map<IVec3, Color8>)
    requires
        24 * bs.len() + 64 <= i32::MAX,
        forall|i: int| 0 <= i < bs.len() ==> block_in_range(#[trigger] bs[i]),
    ensures
        gox_parse(gox_file(bs, m)) == Ok::<(Seq<Seq<u8>>, Seq<LayerRef>), GoxError>((blocks_data(bs, m), layer_refs(bs))),
{
    let f = gox_file(bs, m);
    let bp = blocks_part(bs, m);
    let ld = layer_data(bs);
    lemma_layer_data_len(bs);
    lemma_file_shape(bs, m);
    let q: int = 24 + bp.len() as int;
    lemma_scan_img(f, Seq::empty());
    lemma_scan_blocks(f, 24, bs, m, Seq::empty());
    assert(Seq::<Seq<u8>>::empty() + blocks_data(bs, m) =~= blocks_data(bs, m));
    lemma_parse_layer(bs);
    lemma_scan_layr(f, q, blocks_data(bs, m), ld, layer_refs(bs));
}

/// Local index of cell `p` inside its block.
pub open spec fn local_index(p: IVec3) -> int {
    let b = block_of(p);
    (p.y - 16 * b.y) * 256 + (p.z - 16 * b.z) * 16 + (p.x - 16 * b.x)
}

proof fn lemma_block_cell(b: IVec3, j: int)
    requires
        block_in_range(b),
        0 <= j < BLOCK_VOXELS,
    ensures
        block_of(block_cell(b, j)) == b,
        local_index(block_cell(b, j)) == j,
{
    let p = block_cell(b, j);
    assert(p.x == 16 * b.x + j % 16 && p.y == 16 * b.y + j / 256 && p.z == 16 * b.z + (j / 16) % 16);
    assert(block_of(p) == b);
    assert((j / 256) * 256 + ((j / 16) % 16) * 16 + j % 16 == j) by (nonlinear_arith)
        requires 0 <= j < 4096;
}

proof fn lemma_local_index(p: IVec3)
    ensures
        0 <= local_index(p) < BLOCK_VOXELS,
        block_cell(block_of(p), local_index(p)) == p,
        block_in_range(block_of(p)),
{
    let b = block_of(p);
    let (ox, oy, oz) = (p.x - 16 * b.x, p.y - 16 * b.y, p.z - 16 * b.z);
    assert(0 <= ox < 16 && 0 <= oy < 16 && 0 <= oz < 16);
    let j = oy * 256 + oz * 16 + ox;
    assert(j % 16 == ox && j / 256 == oy && (j / 16) % 16 == oz) by (nonlinear_arith)
        requires j == oy * 256 + oz * 16 + ox, 0 <= ox < 16, 0 <= oy < 16, 0 <= oz < 16;
    assert(0 <= j < 4096) by (nonlinear_arith)
        requires j == oy * 256 + oz * 16 + ox, 0 <= ox < 16, 0 <= oy < 16, 0 <= oz < 16;
}

/// `base` plus the opaque cells of `m` in block `b` with local index below
/// `j`.
pub open spec fn with_block_prefix(base: Map<IVec3, Color8>, m: Map<IVec3, Color8>, b: IVec3, j: int) -> Map<IVec3, Color8> {
    Map::new(
        |p: IVec3| base.contains_key(p) || (m.contains_key(p) && block_of(p) == b && local_index(p) < j),
        |p: IVec3|
            if m.contains_key(p) && block_of(p) == b && local_index(p) < j {
                [m[p][0], m[p][1], m[p][2], 255u8]
            } else {
                base[p]
            },
    )
}

/// Placing a block's written data at the block's own position writes the
/// block's cells of `m`, made opaque.
#[verifier::rlimit(80)]
proof fn lemma_place_block(base: Map<IVec3, Color8>, m: Map<IVec3, Color8>, b: IVec3, k: int, j: int)
    requires
        block_in_range(b),
        0 <= j <= BLOCK_VOXELS,
        forall|p: IVec3| #[trigger] m.contains_key(p) ==> p.y >= 0,
    ensures
        place_voxels(base, block_data(m, b), LayerRef { index: k as i32, x: (b.x * 16) as i32, y: (b.z * 16) as i32, z: (b.y * 16) as i32 }, j)
            == with_block_prefix(base, m, b, j),
    decreases j,
{
    let r = LayerRef { index: k as i32, x: (b.x * 16) as i32, y: (b.z * 16) as i32, z: (b.y * 16) as i32 };
    let data = block_data(m, b);
    if j == 0 {
        assert(with_block_prefix(base, m, b, 0) =~= base) by {
            assert forall|p: IVec3| m.contains_key(p) && block_of(p) == b implies local_index(p) >= 0 by {
                lemma_local_index(p);
            }
        }
    } else {
        lemma_place_block(base, m, b, k, j - 1);
        let t = j - 1;
        let cell = block_cell(b, t);
        lemma_block_cell(b, t);
        assert(placed_cell(r, t) == cell);
        let prev = with_block_prefix(base, m, b, t);
        let next = with_block_prefix(base, m, b, j);
        assert(data[4 * t + 3] == voxel_byte(map_get(m, cell), 3)) by {
            assert((4 * t + 3) / 4 == t && (4 * t + 3) % 4 == 3) by (nonlinear_arith) requires 0 <= t;
        }
        assert(data[4 * t] == voxel_byte(map_get(m, cell), 0) && data[4 * t + 1] == voxel_byte(map_get(m, cell), 1)
            && data[4 * t + 2] == voxel_byte(map_get(m, cell), 2)) by {
            assert((4 * t) / 4 == t && (4 * t) % 4 == 0) by (nonlinear_arith) requires 0 <= t;
            assert((4 * t + 1) / 4 == t && (4 * t + 1) % 4 == 1) by (nonlinear_arith) requires 0 <= t;
            assert((4 * t + 2) / 4 == t && (4 * t + 2) % 4 == 2) by (nonlinear_arith) requires 0 <= t;
        }
        assert forall|p: IVec3| m.contains_key(p) && block_of(p) == b && local_index(p) < j && local_index(p) != t
            implies local_index(p) < t by {}
        assert forall|p: IVec3| m.contains_key(p) && block_of(p) == b && local_index(p) == t implies p == cell by {
            lemma_local_index(p);
        }
        if m.contains_key(cell) {
            assert(voxel_drawn(data, t));
            assert(cell.y >= 0);
            assert(next =~= prev.insert(cell, voxel_color(data, t)));
        } else {
            assert(!voxel_drawn(data, t));
            assert(next =~= prev);
        }
    }
}

/// The opaque cells of `m` in the first `k` blocks of `bs`.
pub open spec fn cells_in_blocks(m: Map<IVec3, Color8>, bs: Seq<IVec3>, k: int) -> Map<IVec3, Color8> {
    Map::new(
        |p: IVec3| m.contains_key(p) && exists|i: int| 0 <= i < k && block_of(p) == #[trigger] bs[i],
        |p: IVec3| [m[p][0], m[p][1], m[p][2], 255u8],
    )
}

proof fn lemma_place_refs(bs: Seq<IVec3>, m: Map<IVec3, Color8>, k: int)
    requires
        0 <= k <= bs.len(),
        24 * bs.len() + 64 <= i32::MAX,
        forall|i: int| 0 <= i < bs.len() ==> block_in_range(#[trigger] bs[i]),
        forall|p: IVec3| #[trigger] m.contains_key(p) ==> p.y >= 0,
    ensures
        place_refs(Map::empty(), blocks_data(bs, m), layer_refs(bs), k) == cells_in_blocks(m, bs, k),
    decreases k,
{
    if k == 0 {
        assert(cells_in_blocks(m, bs, 0) =~= Map::<IVec3, Color8>::empty());
    } else {
        lemma_place_refs(bs, m, k - 1);
        let t = k - 1;
        let b = bs[t];
        let r = layer_refs(bs)[t];
        assert((t as i32) as usize as int == t);
        assert(ref_block(blocks_data(bs, m), r) == Some(block_data(m, b)));
        lemma_place_block(cells_in_blocks(m, bs, t), m, b, t, BLOCK_VOXELS as int);
        let prev = cells_in_blocks(m, bs, t);
        let next = cells_in_blocks(m, bs, k);
        let got = with_block_prefix(prev, m, b, BLOCK_VOXELS as int);
        assert forall|p: IVec3| #[trigger] got.contains_key(p) <==> next.contains_key(p) by {
            lemma_local_index(p);
            if next.contains_key(p) {
                let i = choose|i: int| 0 <= i < k && block_of(p) == #[trigger] bs[i];
                if i < t {
                    assert(prev.contains_key(p));
                }
            }
            if prev.contains_key(p) {
                let i = choose|i: int| 0 <= i < t && block_of(p) == #[trigger] bs[i];
                assert(0 <= i < k && block_of(p) == bs[i]);
            }
            if m.contains_key(p) && block_of(p) == b {
                assert(0 <= t < k && block_of(p) == bs[t]);
            }
        }
        assert(got =~= next);
    }
}

/// Reading back what `export` wrote gives every cell of the grid with its
/// color (made opaque) and nothing else: the file parses, and its
/// placements, applied to an empty grid, rebuild the cells.
pub proof fn law_gox_roundtrip(bs: Seq<IVec3>, m: Map<IVec3, Color8>)
    requires
        sorted_blocks(bs),
        bs.to_set() == occupied_blocks(m),
        forall|p: IVec3| #[trigger] m.contains_key(p) ==> p.y >= 0,
        24 * bs.len() + 64 <= i32::MAX,
    ensures
        gox_parse(gox_file(bs, m)) matches Ok((bl, rs)) && place_refs(Map::empty(), bl, rs, rs.len() as int)
            == opaque(m),
{
    assert forall|i: int| 0 <= i < bs.len() implies block_in_range(#[trigger] bs[i]) by {
        assert(bs.to_set().contains(bs[i]));
        let p = choose|p: IVec3| m.contains_key(p) && block_of(p) == bs[i];
        lemma_local_index(p);
    }
    lemma_parse_file(bs, m);
    let n = bs.len() as int;
    lemma_place_refs(bs, m, n);
    assert forall|p: IVec3| #[trigger] cells_in_blocks(m, bs, n).contains_key(p) <==> opaque(m).contains_key(p) by {
        if m.contains_key(p) {
            assert(occupied_blocks(m).contains(block_of(p)));
            assert(bs.to_set().contains(block_of(p)));
            let i = choose|i: int| 0 <= i < bs.len() && bs[i] == block_of(p);
            assert(0 <= i < n && block_of(p) == bs[i]);
        }
    }
    assert(cells_in_blocks(m, bs, n) =~= opaque(m));
}

} // verus!
