//! Sparse, chunked voxel storage.
//!
//! The world is open: cells live in 32³ chunks that are allocated on first
//! write and dropped as soon as they empty. The only hard rule is the floor:
//! no cell may sit below `y = 0`.

use crate::geom::{Color8, IVec3};
use std::collections::{HashMap, HashSet};
use vstd::prelude::*;
use vstd::std_specs::hash::spec_keys_iter;
use vstd::std_specs::iter::IteratorSpec;

verus! {

broadcast use vstd::std_specs::hash::group_hash_axioms;

/// Chunk edge length.
pub const CHUNK: usize = 32;

pub const CHUNK_I: i32 = 32;

/// Cells per chunk.
pub const CHUNK_VOL: usize = 32768;

/// Occupied-cell count at which the large-scene warning fires.
pub const LARGE_SCENE_CELLS: u32 = 5_000_000;

/// Loaded-chunk count at which the large-scene warning fires.
pub const LARGE_SCENE_CHUNKS: u32 = 4_000;

/// The warning latch clears once both counters fall below 4/5 of their
/// thresholds.
pub const HYSTERESIS_NUM: u32 = 4;

pub const HYSTERESIS_DEN: u32 = 5;

// ---------------------------------------------------------------------------
// Coordinate arithmetic
// ---------------------------------------------------------------------------

/// Chunk coordinates that some `i32` cell (or one of its seam neighbours)
/// can have.
pub open spec fn valid_chunk(c: IVec3) -> bool {
    &&& -0x800_0000 <= c.x <= 0x800_0000
    &&& -0x800_0000 <= c.y <= 0x800_0000
    &&& -0x800_0000 <= c.z <= 0x800_0000
}

/// Chunk holding cell `p` (floor division by the chunk size).
#[verifier::opaque]
pub open spec fn spec_chunk_coord(p: IVec3) -> IVec3 {
    IVec3 { x: (p.x as int / 32) as i32, y: (p.y as int / 32) as i32, z: (p.z as int / 32) as i32 }
}

/// Index of cell `p` inside its chunk's flat cell array.
#[verifier::opaque]
pub open spec fn spec_local_idx(p: IVec3) -> int {
    (p.x as int % 32) * 1024 + (p.y as int % 32) * 32 + (p.z as int % 32)
}

/// Cell at flat index `i` of chunk `c`.
#[verifier::opaque]
pub open spec fn cell_pos(c: IVec3, i: int) -> IVec3 {
    IVec3 {
        x: (c.x * 32 + i / 1024) as i32,
        y: (c.y * 32 + (i / 32) % 32) as i32,
        z: (c.z * 32 + i % 32) as i32,
    }
}

/// Hash-map key of a chunk coordinate.
#[verifier::opaque]
pub open spec fn spec_chunk_key(c: IVec3) -> int {
    c.x * 0x1_0000_0000_0000_0000 + c.y * 0x1_0000_0000 + c.z
}

pub open spec fn key_of(p: IVec3) -> i128 {
    spec_chunk_key(spec_chunk_coord(p)) as i128
}

proof fn lemma_decompose(p: IVec3)
    ensures
        valid_chunk(spec_chunk_coord(p)),
        -0x400_0000 <= spec_chunk_coord(p).x < 0x400_0000,
        -0x400_0000 <= spec_chunk_coord(p).y < 0x400_0000,
        -0x400_0000 <= spec_chunk_coord(p).z < 0x400_0000,
        p.y >= 0 ==> spec_chunk_coord(p).y >= 0,
        0 <= spec_local_idx(p) < 32768,
        cell_pos(spec_chunk_coord(p), spec_local_idx(p)) == p,
        key_of(p) as int == spec_chunk_key(spec_chunk_coord(p)),
{
    reveal(spec_chunk_coord);
    reveal(spec_local_idx);
    reveal(cell_pos);
    lemma_key_range(spec_chunk_coord(p));
    let lx = p.x as int % 32;
    let ly = p.y as int % 32;
    let lz = p.z as int % 32;
    let i = spec_local_idx(p);
    assert(i / 1024 == lx && (i / 32) % 32 == ly && i % 32 == lz) by (nonlinear_arith)
        requires
            0 <= lx < 32,
            0 <= ly < 32,
            0 <= lz < 32,
            i == lx * 1024 + ly * 32 + lz,
    ;
}

proof fn lemma_compose(c: IVec3, i: int)
    requires
        valid_chunk(c),
        0 <= i < 32768,
        -0x400_0000 <= c.x < 0x400_0000,
        -0x400_0000 <= c.y < 0x400_0000,
        -0x400_0000 <= c.z < 0x400_0000,
    ensures
        spec_chunk_coord(cell_pos(c, i)) == c,
        spec_local_idx(cell_pos(c, i)) == i,
{
    reveal(spec_chunk_coord);
    reveal(spec_local_idx);
    reveal(cell_pos);
    let a = i / 1024;
    let b = (i / 32) % 32;
    let d = i % 32;
    assert(0 <= a < 32 && 0 <= b < 32 && 0 <= d < 32 && a * 1024 + b * 32 + d == i)
        by (nonlinear_arith)
        requires
            0 <= i < 32768,
            a == i / 1024,
            b == (i / 32) % 32,
            d == i % 32,
    ;
    let x = c.x * 32 + a;
    let y = c.y * 32 + b;
    let z = c.z * 32 + d;
    assert(x / 32 == c.x && x % 32 == a) by (nonlinear_arith)
        requires
            x == c.x * 32 + a,
            0 <= a < 32,
    ;
    assert(y / 32 == c.y && y % 32 == b) by (nonlinear_arith)
        requires
            y == c.y * 32 + b,
            0 <= b < 32,
    ;
    assert(z / 32 == c.z && z % 32 == d) by (nonlinear_arith)
        requires
            z == c.z * 32 + d,
            0 <= d < 32,
    ;
}

/// Two cells with the same chunk and the same local index are equal.
proof fn lemma_cell_unique(p: IVec3, q: IVec3)
    requires
        spec_chunk_coord(p) == spec_chunk_coord(q),
        spec_local_idx(p) == spec_local_idx(q),
    ensures
        p == q,
{
    lemma_decompose(p);
    lemma_decompose(q);
}

proof fn lemma_key_injective(a: IVec3, b: IVec3)
    requires
        valid_chunk(a),
        valid_chunk(b),
        spec_chunk_key(a) == spec_chunk_key(b),
    ensures
        a == b,
{
    reveal(spec_chunk_key);
    let ra = a.y * 0x1_0000_0000 + a.z;
    let rb = b.y * 0x1_0000_0000 + b.z;
    assert(a.x == b.x) by (nonlinear_arith)
        requires
            a.x * 0x1_0000_0000_0000_0000 + ra == b.x * 0x1_0000_0000_0000_0000 + rb,
            -0x8000_0000_0000_0000 < ra < 0x8000_0000_0000_0000,
            -0x8000_0000_0000_0000 < rb < 0x8000_0000_0000_0000,
    ;
    assert(a.y == b.y) by (nonlinear_arith)
        requires
            a.y * 0x1_0000_0000 + a.z == b.y * 0x1_0000_0000 + b.z,
            -0x8000_0000 < a.z < 0x8000_0000,
            -0x8000_0000 < b.z < 0x8000_0000,
    ;
}

proof fn lemma_key_range(c: IVec3)
    requires
        valid_chunk(c),
    ensures
        i128::MIN <= spec_chunk_key(c) <= i128::MAX,
        (spec_chunk_key(c) as i128) as int == spec_chunk_key(c),
{
    reveal(spec_chunk_key);
}

/// Chunk coordinate of a cell (floor division of each axis by 32).
pub fn chunk_coord(p: IVec3) -> (c: IVec3)
    ensures
        c == spec_chunk_coord(p),
        valid_chunk(c),
{
    proof {
        lemma_decompose(p);
        reveal(spec_chunk_coord);
    }
    let x = match p.x.checked_div_euclid(32) {
        Some(v) => v,
        None => 0,
    };
    let y = match p.y.checked_div_euclid(32) {
        Some(v) => v,
        None => 0,
    };
    let z = match p.z.checked_div_euclid(32) {
        Some(v) => v,
        None => 0,
    };
    IVec3 { x, y, z }
}

fn local_coord(v: i32) -> (r: i32)
    ensures
        r == v as int % 32,
        0 <= r < 32,
{
    match v.checked_rem_euclid(32) {
        Some(r) => r,
        None => 0,
    }
}

fn local_idx(p: IVec3) -> (i: usize)
    ensures
        i == spec_local_idx(p),
        i < CHUNK_VOL,
{
    proof {
        reveal(spec_local_idx);
    }
    let lx = local_coord(p.x) as usize;
    let ly = local_coord(p.y) as usize;
    let lz = local_coord(p.z) as usize;
    lx * 1024 + ly * 32 + lz
}

fn chunk_key(c: IVec3) -> (k: i128)
    requires
        valid_chunk(c),
    ensures
        k == spec_chunk_key(c),
{
    proof {
        reveal(spec_chunk_key);
    }
    (c.x as i128) * 0x1_0000_0000_0000_0000i128 + (c.y as i128) * 0x1_0000_0000i128 + (c.z as i128)
}

// ---------------------------------------------------------------------------
// Chunk
// ---------------------------------------------------------------------------

/// Number of occupied entries of a cell array.
pub open spec fn count_some(s: Seq<Option<Color8>>) -> nat
    decreases s.len(),
{
    if s.len() == 0 {
        0
    } else {
        count_some(s.drop_last()) + if s.last() is Some { 1nat } else { 0nat }
    }
}

proof fn lemma_count_some_bound(s: Seq<Option<Color8>>)
    ensures
        count_some(s) <= s.len(),
    decreases s.len(),
{
    if s.len() > 0 {
        lemma_count_some_bound(s.drop_last());
    }
}

proof fn lemma_count_some_zero(s: Seq<Option<Color8>>, i: int)
    requires
        count_some(s) == 0,
        0 <= i < s.len(),
    ensures
        s[i] is None,
    decreases s.len(),
{
    if i < s.len() - 1 {
        lemma_count_some_zero(s.drop_last(), i);
    }
}

proof fn lemma_count_some_pos(s: Seq<Option<Color8>>) -> (i: int)
    requires
        count_some(s) > 0,
    ensures
        0 <= i < s.len(),
        s[i] is Some,
    decreases s.len(),
{
    if s.last() is Some {
        s.len() - 1
    } else {
        lemma_count_some_pos(s.drop_last())
    }
}

proof fn lemma_count_some_update(s: Seq<Option<Color8>>, i: int, v: Option<Color8>)
    requires
        0 <= i < s.len(),
    ensures
        count_some(s.update(i, v)) == count_some(s) - (if s[i] is Some { 1int } else { 0int }) + (
        if v is Some { 1int } else { 0int }),
    decreases s.len(),
{
    let t = s.update(i, v);
    if i == s.len() - 1 {
        assert(t.drop_last() =~= s.drop_last());
    } else {
        lemma_count_some_update(s.drop_last(), i, v);
        assert(t.drop_last() =~= s.drop_last().update(i, v));
    }
}

proof fn lemma_count_some_none(n: nat)
    ensures
        count_some(Seq::new(n, |i: int| None::<Color8>)) == 0,
    decreases n,
{
    if n > 0 {
        lemma_count_some_none((n - 1) as nat);
        assert(Seq::new(n, |i: int| None::<Color8>).drop_last() =~= Seq::new(
            (n - 1) as nat,
            |i: int| None::<Color8>,
        ));
    }
}

/// One 32³ block of cells, stored flat (`x * 1024 + y * 32 + z`), with the
/// number of occupied cells kept alongside so an emptied chunk can be dropped
/// at once.
pub struct Chunk {
    pub coord: IVec3,
    pub cells: Vec<Option<Color8>>,
    pub count: u32,
}

impl Chunk {
    fn new(coord: IVec3) -> (ch: Chunk)
        ensures
            ch.coord == coord,
            ch.cells@.len() == CHUNK_VOL,
            forall|i: int| 0 <= i < CHUNK_VOL ==> #[trigger] ch.cells@[i] is None,
            ch.count == 0,
            count_some(ch.cells@) == 0,
    {
        let mut cells: Vec<Option<Color8>> = Vec::with_capacity(CHUNK_VOL);
        let mut i: usize = 0;
        while i < CHUNK_VOL
            invariant
                i <= CHUNK_VOL,
                cells@ =~= Seq::new(i as nat, |j: int| None::<Color8>),
            decreases CHUNK_VOL - i,
        {
            cells.push(None);
            i = i + 1;
        }
        proof {
            lemma_count_some_none(CHUNK_VOL as nat);
        }
        Chunk { coord, cells, count: 0 }
    }
}

// ---------------------------------------------------------------------------
// Grid
// ---------------------------------------------------------------------------

/// Open-world voxel grid.
pub struct VoxelGrid {
    /// Loaded chunks, keyed by their packed chunk coordinate.
    chunks: HashMap<i128, Chunk>,
    /// Packed coordinates of the chunks whose mesh must be rebuilt.
    dirty_chunks: HashSet<i128>,
    /// Coarse "anything changed" flag.
    dirty: bool,
    /// Occupied cells across all chunks, kept incrementally.
    total_count: u32,
    /// One-shot latch for the large-scene warning.
    warned_large: bool,
    /// The cells as a map from coordinate to color.
    cells: Ghost<Map<IVec3, Color8>>,
}

/// Cell `p` as the chunk table stores it.
pub open spec fn stored_cell(chunks: Map<i128, Chunk>, p: IVec3) -> Option<Color8> {
    if p.y >= 0 && chunks.contains_key(key_of(p)) {
        chunks[key_of(p)].cells@[spec_local_idx(p)]
    } else {
        None
    }
}

pub open spec fn chunk_ok(k: i128, ch: Chunk) -> bool {
    &&& ch.cells@.len() == CHUNK_VOL
    &&& ch.count == count_some(ch.cells@)
    &&& ch.count > 0
    &&& valid_chunk(ch.coord)
    &&& -0x400_0000 <= ch.coord.x < 0x400_0000
    &&& 0 <= ch.coord.y < 0x400_0000
    &&& -0x400_0000 <= ch.coord.z < 0x400_0000
    &&& k == spec_chunk_key(ch.coord)
}

/// Map view of an optional entry.
pub open spec fn map_get(m: Map<IVec3, Color8>, p: IVec3) -> Option<Color8> {
    if m.contains_key(p) {
        Some(m[p])
    } else {
        None
    }
}

/// `m` with cell `p` set to `c` (`None` clears it).
pub open spec fn map_set(m: Map<IVec3, Color8>, p: IVec3, c: Option<Color8>) -> Map<IVec3, Color8> {
    match c {
        Some(v) => m.insert(p, v),
        None => m.remove(p),
    }
}

/// What writing `c` at `p` does to a grid's cells: cells below the floor are
/// refused.
pub open spec fn grid_set(m: Map<IVec3, Color8>, p: IVec3, c: Option<Color8>) -> Map<IVec3, Color8> {
    if p.y >= 0 {
        map_set(m, p, c)
    } else {
        m
    }
}

/// The chunks a write at `p` marks for a mesh rebuild: the owning chunk and
/// each neighbour across a seam the cell touches.
pub open spec fn touched_chunks(p: IVec3) -> Set<IVec3> {
    let c = spec_chunk_coord(p);
    let lx = p.x as int % 32;
    let ly = p.y as int % 32;
    let lz = p.z as int % 32;
    Set::empty().insert(c).union(
        if lx == 0 { set![IVec3 { x: (c.x - 1) as i32, ..c }] } else { Set::empty() },
    ).union(if lx == 31 { set![IVec3 { x: (c.x + 1) as i32, ..c }] } else { Set::empty() }).union(
        if ly == 0 { set![IVec3 { y: (c.y - 1) as i32, ..c }] } else { Set::empty() },
    ).union(if ly == 31 { set![IVec3 { y: (c.y + 1) as i32, ..c }] } else { Set::empty() }).union(
        if lz == 0 { set![IVec3 { z: (c.z - 1) as i32, ..c }] } else { Set::empty() },
    ).union(if lz == 31 { set![IVec3 { z: (c.z + 1) as i32, ..c }] } else { Set::empty() })
}

/// Every cell that differs between `a` and `b` has its chunk, and each
/// chunk across a seam it touches, marked in `d` for a mesh rebuild.
pub open spec fn changes_marked(a: Map<IVec3, Color8>, b: Map<IVec3, Color8>, d: Set<IVec3>) -> bool {
    forall|p: IVec3| #[trigger] map_get(b, p) != map_get(a, p) ==> touched_chunks(p).subset_of(d)
}

/// A write keeps every change since `a` marked, and drops no mark.
pub proof fn lemma_write_marks(
    a: Map<IVec3, Color8>,
    m: Map<IVec3, Color8>,
    d: Set<IVec3>,
    p: IVec3,
    c: Option<Color8>,
    d2: Set<IVec3>,
)
    requires
        changes_marked(a, m, d),
        p.y >= 0 ==> d2 == d.union(touched_chunks(p)),
        p.y < 0 ==> d2 == d,
    ensures
        changes_marked(a, grid_set(m, p, c), d2),
        d.subset_of(d2),
{
    let m2 = grid_set(m, p, c);
    assert forall|q: IVec3| #[trigger] map_get(m2, q) != map_get(a, q) implies touched_chunks(q).subset_of(d2) by {
        if q != p || p.y < 0 {
            assert(map_get(m2, q) == map_get(m, q));
        }
    }
}

/// Marks chain: changes from `a` to `b` marked in `d1`, changes from `b` to
/// `c` marked in `d2`, and `d1` kept in `d2`, mark every change from `a` to
/// `c` in `d2`.
pub proof fn lemma_marks_chain(
    a: Map<IVec3, Color8>,
    b: Map<IVec3, Color8>,
    c: Map<IVec3, Color8>,
    d1: Set<IVec3>,
    d2: Set<IVec3>,
)
    requires
        changes_marked(a, b, d1),
        changes_marked(b, c, d2),
        d1.subset_of(d2),
    ensures
        changes_marked(a, c, d2),
{
    assert forall|p: IVec3| #[trigger] map_get(c, p) != map_get(a, p) implies touched_chunks(p).subset_of(d2) by {
        if map_get(b, p) != map_get(a, p) {
        } else {
            assert(map_get(c, p) != map_get(b, p));
        }
    }
}

/// Nothing changed, so nothing needs marking.
pub proof fn lemma_no_change_marked(a: Map<IVec3, Color8>, d: Set<IVec3>)
    ensures
        changes_marked(a, a, d),
{
}

/// What the chunk table update in `set` does at one cell `q`.
proof fn lemma_table_at(
    old_chunks: Map<i128, Chunk>,
    new_chunks: Map<i128, Chunk>,
    cells: Map<IVec3, Color8>,
    p: IVec3,
    c: Option<Color8>,
    old_cells: Seq<Option<Color8>>,
    new_chunk: Chunk,
    q: IVec3,
)
    requires
        p.y >= 0,
        stored_cell(old_chunks, q) == map_get(cells, q),
        old_chunks.contains_key(key_of(p)) ==> old_cells == old_chunks[key_of(p)].cells@,
        !old_chunks.contains_key(key_of(p)) ==> forall|i: int|
            0 <= i < CHUNK_VOL ==> #[trigger] old_cells[i] is None,
        old_cells.len() == CHUNK_VOL,
        new_chunk.cells@ == old_cells.update(spec_local_idx(p), c),
        new_chunk.count == count_some(new_chunk.cells@),
        new_chunk.count > 0 ==> new_chunks == old_chunks.insert(key_of(p), new_chunk),
        new_chunk.count == 0 ==> new_chunks == old_chunks.remove(key_of(p)),
    ensures
        stored_cell(new_chunks, q) == map_get(grid_set(cells, p, c), q),
{
    let key = key_of(p);
    lemma_decompose(p);
    lemma_decompose(q);
    if q == p {
        if new_chunk.count == 0 {
            lemma_count_some_zero(new_chunk.cells@, spec_local_idx(p));
        }
    } else if q.y >= 0 && key_of(q) == key {
        lemma_key_injective(spec_chunk_coord(q), spec_chunk_coord(p));
        if spec_local_idx(q) == spec_local_idx(p) {
            lemma_cell_unique(p, q);
        }
        if new_chunk.count == 0 {
            lemma_count_some_zero(new_chunk.cells@, spec_local_idx(q));
        }
    } else {
    }
}

proof fn lemma_table_update(
    old_chunks: Map<i128, Chunk>,
    new_chunks: Map<i128, Chunk>,
    cells: Map<IVec3, Color8>,
    p: IVec3,
    c: Option<Color8>,
    old_cells: Seq<Option<Color8>>,
    new_chunk: Chunk,
)
    requires
        p.y >= 0,
        forall|q: IVec3| #[trigger] stored_cell(old_chunks, q) == map_get(cells, q),
        forall|k: i128| #[trigger] old_chunks.contains_key(k) ==> chunk_ok(k, old_chunks[k]),
        old_chunks.contains_key(key_of(p)) ==> old_cells == old_chunks[key_of(p)].cells@,
        !old_chunks.contains_key(key_of(p)) ==> forall|i: int|
            0 <= i < CHUNK_VOL ==> #[trigger] old_cells[i] is None,
        old_cells.len() == CHUNK_VOL,
        new_chunk.cells@ == old_cells.update(spec_local_idx(p), c),
        new_chunk.coord == spec_chunk_coord(p),
        new_chunk.count == count_some(new_chunk.cells@),
        new_chunk.count > 0 ==> new_chunks == old_chunks.insert(key_of(p), new_chunk),
        new_chunk.count == 0 ==> new_chunks == old_chunks.remove(key_of(p)),
    ensures
        forall|q: IVec3| #[trigger] stored_cell(new_chunks, q) == map_get(grid_set(cells, p, c), q),
        forall|k: i128| #[trigger] new_chunks.contains_key(k) ==> chunk_ok(k, new_chunks[k]),
{
    assert forall|q: IVec3| #[trigger]
        stored_cell(new_chunks, q) == map_get(grid_set(cells, p, c), q) by {
        lemma_table_at(old_chunks, new_chunks, cells, p, c, old_cells, new_chunk, q);
    }
    lemma_decompose(p);
    assert forall|k: i128| #[trigger] new_chunks.contains_key(k) implies chunk_ok(
        k,
        new_chunks[k],
    ) by {
        if k != key_of(p) {
            assert(old_chunks.contains_key(k));
        }
    }
}

proof fn lemma_dirty_update(old_dirty: Set<i128>, new_dirty: Set<i128>, p: IVec3)
    requires
        ({
            let coord = spec_chunk_coord(p);
            let lx = p.x as int % 32;
            let ly = p.y as int % 32;
            let lz = p.z as int % 32;
            let k0 = spec_chunk_key(coord) as i128;
            let k1 = spec_chunk_key(IVec3 { x: (coord.x - 1) as i32, ..coord }) as i128;
            let k2 = spec_chunk_key(IVec3 { x: (coord.x + 1) as i32, ..coord }) as i128;
            let k3 = spec_chunk_key(IVec3 { y: (coord.y - 1) as i32, ..coord }) as i128;
            let k4 = spec_chunk_key(IVec3 { y: (coord.y + 1) as i32, ..coord }) as i128;
            let k5 = spec_chunk_key(IVec3 { z: (coord.z - 1) as i32, ..coord }) as i128;
            let k6 = spec_chunk_key(IVec3 { z: (coord.z + 1) as i32, ..coord }) as i128;
            forall|k: i128|
                #![trigger new_dirty.contains(k)]
                new_dirty.contains(k) <==> (old_dirty.contains(k) || k == k0 || (lx == 0 && k
                    == k1) || (lx == 31 && k == k2) || (ly == 0 && k == k3) || (ly == 31 && k
                    == k4) || (lz == 0 && k == k5) || (lz == 31 && k == k6))
        }),
    ensures
        Set::new(|c: IVec3| valid_chunk(c) && new_dirty.contains(spec_chunk_key(c) as i128))
            == Set::new(
            |c: IVec3| valid_chunk(c) && old_dirty.contains(spec_chunk_key(c) as i128),
        ).union(touched_chunks(p)),
{
    lemma_decompose(p);
    let coord = spec_chunk_coord(p);
    let t = touched_chunks(p);
    let c0 = coord;
    let c1 = IVec3 { x: (coord.x - 1) as i32, ..coord };
    let c2 = IVec3 { x: (coord.x + 1) as i32, ..coord };
    let c3 = IVec3 { y: (coord.y - 1) as i32, ..coord };
    let c4 = IVec3 { y: (coord.y + 1) as i32, ..coord };
    let c5 = IVec3 { z: (coord.z - 1) as i32, ..coord };
    let c6 = IVec3 { z: (coord.z + 1) as i32, ..coord };
    let nv = Set::new(|c: IVec3| valid_chunk(c) && new_dirty.contains(spec_chunk_key(c) as i128));
    let ov = Set::new(|c: IVec3| valid_chunk(c) && old_dirty.contains(spec_chunk_key(c) as i128));
    assert forall|d: IVec3| #[trigger] nv.contains(d) == ov.union(t).contains(d) by {
        if valid_chunk(d) {
            lemma_key_range(d);
            lemma_key_range(c0);
            lemma_key_range(c1);
            lemma_key_range(c2);
            lemma_key_range(c3);
            lemma_key_range(c4);
            lemma_key_range(c5);
            lemma_key_range(c6);
            let kd = spec_chunk_key(d);
            if kd == spec_chunk_key(c0) {
                lemma_key_injective(d, c0);
            }
            if kd == spec_chunk_key(c1) {
                lemma_key_injective(d, c1);
            }
            if kd == spec_chunk_key(c2) {
                lemma_key_injective(d, c2);
            }
            if kd == spec_chunk_key(c3) {
                lemma_key_injective(d, c3);
            }
            if kd == spec_chunk_key(c4) {
                lemma_key_injective(d, c4);
            }
            if kd == spec_chunk_key(c5) {
                lemma_key_injective(d, c5);
            }
            if kd == spec_chunk_key(c6) {
                lemma_key_injective(d, c6);
            }
            assert(new_dirty.contains(kd as i128) == nv.contains(d));
        } else {
            assert(!t.contains(d));
        }
    }
    assert(nv =~= ov.union(t));
}

/// `a <= b` on every axis.
pub open spec fn le3(a: IVec3, b: IVec3) -> bool {
    a.x <= b.x && a.y <= b.y && a.z <= b.z
}

/// `(mn, mx)` is the tightest axis-aligned box around the cells `s`.
pub open spec fn is_bounding_box(s: Set<IVec3>, mn: IVec3, mx: IVec3) -> bool {
    &&& forall|p: IVec3| #[trigger] s.contains(p) ==> le3(mn, p) && le3(p, mx)
    &&& exists|p: IVec3| #[trigger] s.contains(p) && p.x == mn.x
    &&& exists|p: IVec3| #[trigger] s.contains(p) && p.y == mn.y
    &&& exists|p: IVec3| #[trigger] s.contains(p) && p.z == mn.z
    &&& exists|p: IVec3| #[trigger] s.contains(p) && p.x == mx.x
    &&& exists|p: IVec3| #[trigger] s.contains(p) && p.y == mx.y
    &&& exists|p: IVec3| #[trigger] s.contains(p) && p.z == mx.z
}

/// A set of cells has at most one bounding box.
pub proof fn lemma_bounding_box_unique(s: Set<IVec3>, a: IVec3, b: IVec3, c: IVec3, d: IVec3)
    requires
        is_bounding_box(s, a, b),
        is_bounding_box(s, c, d),
    ensures
        a == c,
        b == d,
{
    let p1 = choose|p: IVec3| #[trigger] s.contains(p) && p.x == a.x;
    let p2 = choose|p: IVec3| #[trigger] s.contains(p) && p.x == c.x;
    let p3 = choose|p: IVec3| #[trigger] s.contains(p) && p.y == a.y;
    let p4 = choose|p: IVec3| #[trigger] s.contains(p) && p.y == c.y;
    let p5 = choose|p: IVec3| #[trigger] s.contains(p) && p.z == a.z;
    let p6 = choose|p: IVec3| #[trigger] s.contains(p) && p.z == c.z;
    let q1 = choose|p: IVec3| #[trigger] s.contains(p) && p.x == b.x;
    let q2 = choose|p: IVec3| #[trigger] s.contains(p) && p.x == d.x;
    let q3 = choose|p: IVec3| #[trigger] s.contains(p) && p.y == b.y;
    let q4 = choose|p: IVec3| #[trigger] s.contains(p) && p.y == d.y;
    let q5 = choose|p: IVec3| #[trigger] s.contains(p) && p.z == b.z;
    let q6 = choose|p: IVec3| #[trigger] s.contains(p) && p.z == d.z;
}

/// Chunks that hold at least one occupied cell of `m`.
pub open spec fn occupied_chunks(m: Map<IVec3, Color8>) -> Set<IVec3> {
    Set::new(|c: IVec3| exists|p: IVec3| #[trigger] m.contains_key(p) && spec_chunk_coord(p) == c)
}

/// Cell at flat index `i` of chunk `c`, computed.
fn cell_at_index(c: IVec3, i: usize) -> (p: IVec3)
    requires
        -0x400_0000 <= c.x < 0x400_0000,
        -0x400_0000 <= c.y < 0x400_0000,
        -0x400_0000 <= c.z < 0x400_0000,
        i < CHUNK_VOL,
    ensures
        p == cell_pos(c, i as int),
{
    proof {
        reveal(cell_pos);
    }
    let i32i = i as i32;
    IVec3 { x: c.x * 32 + i32i / 1024, y: c.y * 32 + (i32i / 32) % 32, z: c.z * 32 + i32i % 32 }
}

impl View for VoxelGrid {
    type V = Map<IVec3, Color8>;

    closed spec fn view(&self) -> Map<IVec3, Color8> {
        self.cells@
    }
}

impl VoxelGrid {
    /// The grid's internal invariant.
    pub closed spec fn wf(&self) -> bool {
        &&& forall|k: i128| #[trigger]
            self.chunks@.contains_key(k) ==> chunk_ok(k, self.chunks@[k])
        &&& forall|p: IVec3| #[trigger]
            stored_cell(self.chunks@, p) == map_get(self.cells@, p)
        &&& forall|p: IVec3| #[trigger] self.cells@.contains_key(p) ==> p.y >= 0
        &&& self.cells@.dom().finite()
        &&& self.total_count == self.cells@.dom().len()
    }

    /// Chunks currently holding at least one cell.
    pub closed spec fn loaded_chunks(&self) -> Set<IVec3> {
        Set::new(
            |c: IVec3|
                valid_chunk(c) && self.chunks@.contains_key(spec_chunk_key(c) as i128),
        )
    }

    /// Chunks marked for a mesh rebuild.
    pub closed spec fn dirty_view(&self) -> Set<IVec3> {
        Set::new(
            |c: IVec3|
                valid_chunk(c) && self.dirty_chunks@.contains(spec_chunk_key(c) as i128),
        )
    }

    /// The coarse "anything changed" flag.
    pub closed spec fn spec_dirty(&self) -> bool {
        self.dirty
    }

    /// The large-scene warning latch.
    pub closed spec fn spec_warned_large(&self) -> bool {
        self.warned_large
    }

    /// Color stored at `p`, `None` when empty.
    pub open spec fn spec_get(&self, p: IVec3) -> Option<Color8> {
        map_get(self@, p)
    }

    /// An empty grid with nothing dirty.
    pub fn new() -> (g: VoxelGrid)
        ensures
            g.wf(),
            g@ == Map::<IVec3, Color8>::empty(),
            g.dirty_view() == Set::<IVec3>::empty(),
            g.loaded_chunks() == Set::<IVec3>::empty(),
            !g.spec_dirty(),
            !g.spec_warned_large(),
    {
        let g = VoxelGrid {
            chunks: HashMap::new(),
            dirty_chunks: HashSet::new(),
            dirty: false,
            total_count: 0,
            warned_large: false,
            cells: Ghost(Map::empty()),
        };
        assert(g.dirty_view() =~= Set::<IVec3>::empty());
        assert(g.loaded_chunks() =~= Set::<IVec3>::empty());
        g
    }

    /// The only hard rule of the open-world grid: nothing below the floor.
    pub fn in_bounds(&self, p: IVec3) -> (r: bool)
        ensures
            r == (p.y >= 0),
    {
        p.y >= 0
    }

    /// Color at `p`, `None` for an empty cell or one below the floor.
    pub fn get(&self, p: IVec3) -> (r: Option<Color8>)
        requires
            self.wf(),
        ensures
            r == self.spec_get(p),
            p.y < 0 ==> r is None,
    {
        assert(stored_cell(self.chunks@, p) == map_get(self.cells@, p));
        if p.y < 0 {
            return None;
        }
        let c = chunk_coord(p);
        let k = chunk_key(c);
        match self.chunks.get(&k) {
            Some(ch) => {
                let i = local_idx(p);
                assert(chunk_ok(k, self.chunks@[k]));
                ch.cells[i]
            },
            None => None,
        }
    }

    /// Writes `c` at `p` (`None` clears). Cells below the floor are refused.
    /// Marks the owning chunk, and any neighbour across a seam the cell
    /// touches, for a mesh rebuild.
    #[verifier::rlimit(60)]
    #[verifier::spinoff_prover]
    pub fn set(&mut self, p: IVec3, c: Option<Color8>)
        requires
            old(self).wf(),
            old(self)@.dom().len() < u32::MAX,
        ensures
            final(self).wf(),
            final(self)@ == grid_set(old(self)@, p, c),
            p.y >= 0 ==> final(self).dirty_view() == old(self).dirty_view().union(touched_chunks(p)),
            p.y >= 0 ==> final(self).spec_dirty(),
            p.y < 0 ==> final(self).dirty_view() == old(self).dirty_view(),
            p.y < 0 ==> final(self).spec_dirty() == old(self).spec_dirty(),
            final(self).spec_warned_large() == old(self).spec_warned_large(),
    {
        if p.y < 0 {
            return;
        }
        let coord = chunk_coord(p);
        let idx = local_idx(p);
        let key = chunk_key(coord);
        proof {
            lemma_decompose(p);
        }
        let ghost old_chunks = self.chunks@;
        let mut chunk = match self.chunks.remove(&key) {
            Some(ch) => ch,
            None => Chunk::new(coord),
        };
        proof {
            if old_chunks.contains_key(key) {
                assert(chunk_ok(key, old_chunks[key]));
                lemma_key_injective(chunk.coord, coord);
            }
            lemma_count_some_bound(chunk.cells@);
        }
        let ghost old_cells = chunk.cells@;
        let prev = chunk.cells[idx];
        let delta: i32 = if prev.is_none() && c.is_some() {
            chunk.count = chunk.count + 1;
            1
        } else if prev.is_some() && c.is_none() {
            chunk.count = chunk.count - 1;
            -1
        } else {
            0
        };
        chunk.cells.set(idx, c);
        proof {
            lemma_count_some_update(old_cells, idx as int, c);
        }
        let count_now = chunk.count;
        let ghost new_chunk = chunk;
        if count_now > 0 {
            self.chunks.insert(key, chunk);
        }
        self.dirty = true;
        let ghost new_cells = grid_set(self.cells@, p, c);
        proof {
            if !old_chunks.contains_key(key) {
                assert forall|i: int| 0 <= i < CHUNK_VOL implies #[trigger] old_cells[i] is None by {
                }
            }
            if count_now > 0 {
                assert(self.chunks@ =~= old_chunks.insert(key, new_chunk));
            } else {
                assert(self.chunks@ =~= old_chunks.remove(key));
            }
            lemma_table_update(old_chunks, self.chunks@, self.cells@, p, c, old_cells, new_chunk);
            assert(stored_cell(old_chunks, p) == map_get(self.cells@, p));
        }
        self.cells = Ghost(new_cells);
        if delta > 0 {
            self.total_count = self.total_count.saturating_add(1);
        } else if delta < 0 {
            self.total_count = self.total_count.saturating_sub(1);
        }
        self.dirty_chunks.insert(key);
        let lx = local_coord(p.x);
        let ly = local_coord(p.y);
        let lz = local_coord(p.z);
        if lx == 0 {
            self.dirty_chunks.insert(chunk_key(IVec3 { x: coord.x - 1, ..coord }));
        }
        if lx == CHUNK_I - 1 {
            self.dirty_chunks.insert(chunk_key(IVec3 { x: coord.x + 1, ..coord }));
        }
        if ly == 0 {
            self.dirty_chunks.insert(chunk_key(IVec3 { y: coord.y - 1, ..coord }));
        }
        if ly == CHUNK_I - 1 {
            self.dirty_chunks.insert(chunk_key(IVec3 { y: coord.y + 1, ..coord }));
        }
        if lz == 0 {
            self.dirty_chunks.insert(chunk_key(IVec3 { z: coord.z - 1, ..coord }));
        }
        if lz == CHUNK_I - 1 {
            self.dirty_chunks.insert(chunk_key(IVec3 { z: coord.z + 1, ..coord }));
        }
        proof {
            lemma_dirty_update(old(self).dirty_chunks@, self.dirty_chunks@, p);
        }
    }

    /// Stored chunk `k` holds a cell, and that cell is in the grid.
    proof fn lemma_chunk_has_cell(&self, k: i128) -> (p: IVec3)
        requires
            self.wf(),
            self.chunks@.contains_key(k),
        ensures
            self@.contains_key(p),
            key_of(p) == k,
            spec_chunk_coord(p) == self.chunks@[k].coord,
    {
        let ch = self.chunks@[k];
        assert(chunk_ok(k, ch));
        let i = lemma_count_some_pos(ch.cells@);
        let p = cell_pos(ch.coord, i);
        lemma_compose(ch.coord, i);
        lemma_decompose(p);
        assert(p.y >= 0) by {
            reveal(cell_pos);
        }
        lemma_key_range(ch.coord);
        assert(stored_cell(self.chunks@, p) == map_get(self.cells@, p));
        p
    }

    /// A valid chunk coordinate is loaded exactly when some cell in it is
    /// occupied.
    proof fn lemma_loaded(&self, c: IVec3)
        requires
            self.wf(),
            valid_chunk(c),
        ensures
            self.chunks@.contains_key(spec_chunk_key(c) as i128) == occupied_chunks(
                self@,
            ).contains(c),
    {
        lemma_key_range(c);
        let k = spec_chunk_key(c) as i128;
        if self.chunks@.contains_key(k) {
            let p = self.lemma_chunk_has_cell(k);
            assert(chunk_ok(k, self.chunks@[k]));
            lemma_key_injective(self.chunks@[k].coord, c);
        }
        if occupied_chunks(self@).contains(c) {
            let p = choose|p: IVec3| #[trigger] self@.contains_key(p) && spec_chunk_coord(p) == c;
            lemma_decompose(p);
            assert(stored_cell(self.chunks@, p) == map_get(self.cells@, p));
        }
    }

    /// Occupied chunks are valid chunk coordinates.
    proof fn lemma_occupied_valid(&self, c: IVec3)
        requires
            occupied_chunks(self@).contains(c),
        ensures
            valid_chunk(c),
    {
        let p = choose|p: IVec3| #[trigger] self@.contains_key(p) && spec_chunk_coord(p) == c;
        lemma_decompose(p);
    }

    /// A well-formed grid holds finitely many cells.
    pub proof fn lemma_finite(&self)
        requires
            self.wf(),
        ensures
            self@.dom().finite(),
            self@.dom().len() <= u32::MAX,
            forall|p: IVec3| #[trigger] self@.contains_key(p) ==> p.y >= 0,
    {
    }

    /// Whether chunk `c` holds at least one occupied cell.
    pub fn has_chunk(&self, c: IVec3) -> (r: bool)
        requires
            self.wf(),
        ensures
            r == occupied_chunks(self@).contains(c),
    {
        if !(-0x800_0000 <= c.x && c.x <= 0x800_0000 && -0x800_0000 <= c.y && c.y <= 0x800_0000
            && -0x800_0000 <= c.z && c.z <= 0x800_0000) {
            proof {
                if occupied_chunks(self@).contains(c) {
                    self.lemma_occupied_valid(c);
                }
            }
            return false;
        }
        proof {
            self.lemma_loaded(c);
        }
        self.chunks.contains_key(&chunk_key(c))
    }

    /// Number of loaded chunks (each holds at least one occupied cell).
    pub fn chunk_count(&self) -> (r: usize)
        requires
            self.wf(),
        ensures
            r == occupied_chunks(self@).len(),
            occupied_chunks(self@).finite(),
    {
        proof {
            let f = |k: i128| self.chunks@[k].coord;
            let dom = self.chunks@.dom();
            assert(vstd::relations::injective_on(f, dom)) by {
                assert forall|a: i128, b: i128|
                    dom.contains(a) && dom.contains(b) && #[trigger] f(a) == #[trigger] f(b) implies a
                    == b by {
                    assert(chunk_ok(a, self.chunks@[a]));
                    assert(chunk_ok(b, self.chunks@[b]));
                }
            }
            assert forall|c: IVec3| #[trigger] dom.map(f).contains(c) == occupied_chunks(
                self@,
            ).contains(c) by {
                if dom.map(f).contains(c) {
                    let k = choose|k: i128| dom.contains(k) && c == f(k);
                    assert(chunk_ok(k, self.chunks@[k]));
                    self.lemma_loaded(c);
                }
                if occupied_chunks(self@).contains(c) {
                    self.lemma_occupied_valid(c);
                    self.lemma_loaded(c);
                    let k = spec_chunk_key(c) as i128;
                    assert(chunk_ok(k, self.chunks@[k]));
                    lemma_key_range(c);
                    lemma_key_injective(self.chunks@[k].coord, c);
                    assert(dom.contains(k) && c == f(k));
                }
            }
            assert(dom.map(f) =~= occupied_chunks(self@));
            vstd::set_lib::lemma_map_size(dom, occupied_chunks(self@), f);
        }
        self.chunks.len()
    }

    /// Coordinates of the loaded chunks (those holding a cell), each once.
    pub fn chunk_coords(&self) -> (r: Vec<IVec3>)
        requires
            self.wf(),
        ensures
            r@.no_duplicates(),
            forall|c: IVec3| #[trigger] r@.contains(c) <==> occupied_chunks(self@).contains(c),
    {
        let mut keys: Vec<i128> = Vec::new();
        for k in it: self.chunks.keys()
            invariant
                it.seq() == spec_keys_iter(&self.chunks).remaining(),
                keys@.len() == it.index(),
                forall|j: int| 0 <= j < it.index() ==> keys@[j] == *it.seq()[j],
        {
            keys.push(*k);
        }
        let ghost s = keys@;
        proof {
            let ks = spec_keys_iter(&self.chunks).remaining();
            assert(s =~= ks.unref());
            assert forall|k: i128| self.chunks@.contains_key(k) implies s.contains(k) by {
                assert(ks.unref().to_set().contains(k));
            }
            assert forall|j: int| 0 <= j < s.len() implies self.chunks@.contains_key(#[trigger] s[j]) by {
                assert(ks.unref().to_set().contains(s[j]));
            }
            assert(s.no_duplicates()) by {
                assert forall|a: int, b: int| 0 <= a < s.len() && 0 <= b < s.len() && a != b implies s[a] != s[b] by {
                    assert(ks[a] != ks[b]);
                }
            }
        }
        let mut out: Vec<IVec3> = Vec::new();
        let mut i: usize = 0;
        while i < keys.len()
            invariant
                self.wf(),
                keys@ == s,
                s.no_duplicates(),
                forall|j: int| 0 <= j < s.len() ==> self.chunks@.contains_key(#[trigger] s[j]),
                i <= keys.len(),
                out@.len() == i,
                forall|j: int| 0 <= j < i ==> #[trigger] out@[j] == self.chunks@[s[j]].coord,
            decreases keys.len() - i,
        {
            let k = keys[i];
            match self.chunks.get(&k) {
                Some(ch) => {
                    out.push(ch.coord);
                },
                None => {
                    proof {
                        assert(self.chunks@.contains_key(s[i as int]));
                    }
                    out.push(IVec3::new(0, 0, 0));
                },
            }
            i = i + 1;
        }
        proof {
            assert forall|a: int, b: int| 0 <= a < out@.len() && 0 <= b < out@.len() && a != b implies out@[a] != out@[b] by {
                let ka = s[a];
                let kb = s[b];
                assert(chunk_ok(ka, self.chunks@[ka]));
                assert(chunk_ok(kb, self.chunks@[kb]));
                if out@[a] == out@[b] {
                    assert(ka == kb);
                }
            }
            assert forall|c: IVec3| #[trigger] out@.contains(c) <==> occupied_chunks(self@).contains(c) by {
                if out@.contains(c) {
                    let j = choose|j: int| 0 <= j < out@.len() && out@[j] == c;
                    let kj = s[j];
                    assert(chunk_ok(kj, self.chunks@[kj]));
                    lemma_key_range(c);
                    self.lemma_loaded(c);
                }
                if occupied_chunks(self@).contains(c) {
                    self.lemma_occupied_valid(c);
                    self.lemma_loaded(c);
                    let k = spec_chunk_key(c) as i128;
                    assert(self.chunks@.contains_key(k));
                    assert(s.contains(k));
                    let j = choose|j: int| 0 <= j < s.len() && s[j] == k;
                    assert(chunk_ok(k, self.chunks@[k]));
                    lemma_key_range(c);
                    lemma_key_injective(self.chunks@[k].coord, c);
                    assert(out@[j] == c);
                }
            }
        }
        out
    }

    /// Number of occupied cells.
    pub fn count(&self) -> (r: usize)
        requires
            self.wf(),
        ensures
            r == self@.dom().len(),
    {
        self.total_count as usize
    }

    /// Whether chunk `c` is marked for a mesh rebuild.
    pub fn is_chunk_dirty(&self, c: IVec3) -> (r: bool)
        ensures
            r == self.dirty_view().contains(c),
    {
        if !(-0x800_0000 <= c.x && c.x <= 0x800_0000 && -0x800_0000 <= c.y && c.y <= 0x800_0000
            && -0x800_0000 <= c.z && c.z <= 0x800_0000) {
            return false;
        }
        proof {
            lemma_key_range(c);
        }
        self.dirty_chunks.contains(&chunk_key(c))
    }

    /// Forgets every pending chunk rebuild (the mesher drained them).
    pub fn clear_dirty_chunks(&mut self)
        requires
            old(self).wf(),
        ensures
            final(self).wf(),
            final(self)@ == old(self)@,
            final(self).dirty_view() == Set::<IVec3>::empty(),
            final(self).spec_dirty() == old(self).spec_dirty(),
            final(self).spec_warned_large() == old(self).spec_warned_large(),
    {
        self.dirty_chunks.clear();
        assert(self.dirty_view() =~= Set::<IVec3>::empty());
    }

    /// The coarse change flag.
    pub fn dirty(&self) -> (r: bool)
        ensures
            r == self.spec_dirty(),
    {
        self.dirty
    }

    pub fn set_dirty(&mut self, d: bool)
        requires
            old(self).wf(),
        ensures
            final(self).wf(),
            final(self)@ == old(self)@,
            final(self).spec_dirty() == d,
            final(self).dirty_view() == old(self).dirty_view(),
            final(self).spec_warned_large() == old(self).spec_warned_large(),
    {
        self.dirty = d;
    }

    /// The large-scene warning latch.
    pub fn warned_large(&self) -> (r: bool)
        ensures
            r == self.spec_warned_large(),
    {
        self.warned_large
    }

    pub fn set_warned_large(&mut self, w: bool)
        requires
            old(self).wf(),
        ensures
            final(self).wf(),
            final(self)@ == old(self)@,
            final(self).spec_warned_large() == w,
            final(self).spec_dirty() == old(self).spec_dirty(),
            final(self).dirty_view() == old(self).dirty_view(),
    {
        self.warned_large = w;
    }

    /// Every occupied cell with its color, each cell exactly once. The order
    /// follows the chunk table's iteration order, which is unspecified.
    pub fn iter_occupied(&self) -> (r: Vec<(IVec3, Color8)>)
        requires
            self.wf(),
        ensures
            forall|i: int| 0 <= i < r.len() ==> #[trigger] map_get(self@, r@[i].0) == Some(r@[i].1),
            forall|p: IVec3| #[trigger]
                self@.contains_key(p) ==> exists|i: int| 0 <= i < r.len() && r@[i].0 == p,
            forall|i: int, j: int| 0 <= i < j < r.len() ==> r@[i].0 != r@[j].0,
            r.len() == self@.dom().len(),
    {
        let mut keys: Vec<i128> = Vec::new();
        for k in it: self.chunks.keys()
            invariant
                it.seq() == spec_keys_iter(&self.chunks).remaining(),
                keys@.len() == it.index(),
                forall|j: int| 0 <= j < it.index() ==> keys@[j] == *it.seq()[j],
        {
            keys.push(*k);
        }
        let ghost s = keys@;
        proof {
            let ks = spec_keys_iter(&self.chunks).remaining();
            assert(s =~= ks.unref());
            assert(s.no_duplicates()) by {
                assert forall|a: int, b: int|
                    0 <= a < s.len() && 0 <= b < s.len() && a != b implies s[a] != s[b] by {
                    assert(ks[a] != ks[b]);
                }
            }
            assert forall|k: i128| self.chunks@.contains_key(k) implies s.contains(k) by {
                assert(ks.unref().to_set().contains(k));
            }
            assert forall|j: int| 0 <= j < s.len() implies self.chunks@.contains_key(
                #[trigger] s[j],
            ) by {
                assert(ks.unref().to_set().contains(s[j]));
            }
        }
        let mut out: Vec<(IVec3, Color8)> = Vec::new();
        // For each entry, the index in `s` of the chunk it came from.
        let ghost mut origin: Seq<int> = Seq::empty();
        // For each covered cell, its index in `out`.
        let ghost mut at: Map<IVec3, int> = Map::empty();
        let mut kn: usize = 0;
        while kn < keys.len()
            invariant
                self.wf(),
                keys@ == s,
                s.no_duplicates(),
                forall|j: int| 0 <= j < s.len() ==> self.chunks@.contains_key(#[trigger] s[j]),
                forall|k: i128| self.chunks@.contains_key(k) ==> s.contains(k),
                kn <= keys.len(),
                origin.len() == out.len(),
                forall|i: int| 0 <= i < out.len() ==> #[trigger] map_get(self@, out@[i].0) == Some(out@[i].1),
                forall|i: int|
                    #![trigger out@[i]]
                    #![trigger origin[i]]
                    0 <= i < out.len() ==> 0 <= origin[i] < kn && key_of(out@[i].0)
                        == s[origin[i]],
                forall|i: int, j: int| 0 <= i < j < out.len() ==> out@[i].0 != out@[j].0,
                forall|p: IVec3|
                    #![trigger at.contains_key(p)]
                    at.contains_key(p) ==> 0 <= at[p] < out.len() && out@[at[p]].0 == p,
                forall|j: int, p: IVec3|
                    #![trigger s[j], self@.contains_key(p)]
                    0 <= j < kn && self@.contains_key(p) && key_of(p) == s[j] ==> at.contains_key(p),
            decreases keys.len() - kn,
        {
            let k = &keys[kn];
            let ch = match self.chunks.get(k) {
                Some(ch) => ch,
                None => {
                    proof {
                        assert(self.chunks@.contains_key(s[kn as int]));
                    }
                    return out;
                },
            };
            let ghost jj = kn as int;
            let ghost start = out.len() as int;
            proof {
                assert(chunk_ok(*k, *ch));
            }
            let mut idx: usize = 0;
            while idx < CHUNK_VOL
                invariant
                    self.wf(),
                    keys@ == s,
                    s.no_duplicates(),
                    0 <= jj < s.len(),
                    s[jj] == *k,
                    jj == kn,
                    self.chunks@.contains_key(*k),
                    self.chunks@[*k] == *ch,
                    chunk_ok(*k, *ch),
                    0 <= start <= out.len(),
                    idx <= CHUNK_VOL,
                    origin.len() == out.len(),
                    forall|i: int| 0 <= i < out.len() ==> #[trigger] map_get(self@, out@[i].0) == Some(out@[i].1),
                    forall|i: int|
                        0 <= i < out.len() ==> 0 <= #[trigger] origin[i] <= jj && key_of(out@[i].0)
                            == s[origin[i]],
                    forall|i: int|
                        #![trigger out@[i]]
                        #![trigger origin[i]]
                        start <= i < out.len() ==> origin[i] == jj && 0 <= spec_local_idx(out@[i].0)
                            < idx,
                    forall|i: int| 0 <= i < start ==> #[trigger] origin[i] < jj,
                    forall|i: int, j: int| 0 <= i < j < out.len() ==> out@[i].0 != out@[j].0,
                    forall|p: IVec3|
                        #![trigger at.contains_key(p)]
                        at.contains_key(p) ==> 0 <= at[p] < out.len() && out@[at[p]].0 == p,
                    forall|j: int, p: IVec3|
                        #![trigger s[j], self@.contains_key(p)]
                        0 <= j < jj && self@.contains_key(p) && key_of(p) == s[j] ==> at.contains_key(p),
                    forall|p: IVec3|
                        #![trigger self@.contains_key(p)]
                        self@.contains_key(p) && key_of(p) == *k && 0 <= spec_local_idx(p) < idx
                            ==> at.contains_key(p),
                decreases CHUNK_VOL - idx,
            {
                let cell = ch.cells[idx];
                if let Some(c) = cell {
                    let pos = cell_at_index(ch.coord, idx);
                    proof {
                        lemma_compose(ch.coord, idx as int);
                        lemma_decompose(pos);
                        lemma_key_range(ch.coord);
                        assert(pos.y >= 0) by {
                            reveal(cell_pos);
                        }
                        assert(stored_cell(self.chunks@, pos) == map_get(self@, pos));
                        assert forall|i: int| 0 <= i < out.len() implies out@[i].0 != pos by {
                            if origin[i] < jj {
                                assert(s[origin[i]] != s[jj]);
                            } else {
                                assert(spec_local_idx(out@[i].0) < idx);
                            }
                        }
                    }
                    let ghost old_origin = origin;
                    assert(old_origin.len() == out.len());
                    out.push((pos, c));
                    proof {
                        origin = origin.push(jj);
                        assert(origin.len() == out.len());
                        assert(origin == old_origin.push(jj));
                        at = at.insert(pos, out.len() - 1);
                        assert(spec_local_idx(out@[out.len() - 1].0) == idx);
                        assert(origin[out.len() - 1] == jj);
                        assert forall|i: int| start <= i < out.len() implies origin[i] == jj by {
                            if i < out.len() - 1 {
                                assert(origin[i] == old_origin[i]);
                            }
                        }
                    }
                }
                proof {
                    assert forall|p: IVec3|
                        #![trigger self@.contains_key(p)]
                        self@.contains_key(p) && key_of(p) == *k && 0 <= spec_local_idx(p) < idx + 1
                            implies at.contains_key(p) by {
                        if spec_local_idx(p) == idx {
                            lemma_decompose(p);
                            assert(stored_cell(self.chunks@, p) == map_get(self@, p));
                            lemma_key_injective(spec_chunk_coord(p), ch.coord);
                            lemma_compose(ch.coord, idx as int);
                            lemma_cell_unique(p, cell_pos(ch.coord, idx as int));
                        }
                    }
                }
                idx = idx + 1;
            }
            proof {
                assert forall|j: int, p: IVec3|
                    #![trigger s[j], self@.contains_key(p)]
                    0 <= j < jj + 1 && self@.contains_key(p) && key_of(p) == s[j] implies at.contains_key(p) by {
                    lemma_decompose(p);
                }
            }
            kn = kn + 1;
        }
        proof {
            assert forall|p: IVec3| #[trigger] self@.contains_key(p) implies at.contains_key(p) by {
                lemma_decompose(p);
                assert(stored_cell(self.chunks@, p) == map_get(self@, p));
                let k = key_of(p);
                assert(self.chunks@.contains_key(k));
                assert(s.contains(k));
                let j = choose|j: int| 0 <= j < s.len() && s[j] == k;
            }
            assert forall|p: IVec3| #[trigger] self@.contains_key(p) implies exists|i: int|
                0 <= i < out.len() && out@[i].0 == p by {
                assert(out@[at[p]].0 == p);
            }
            let ps = out@.map_values(|e: (IVec3, Color8)| e.0);
            assert(ps.no_duplicates()) by {
                assert forall|i: int, j: int|
                    0 <= i < ps.len() && 0 <= j < ps.len() && i != j implies ps[i] != ps[j] by {
                    if i < j {
                    } else {
                    }
                }
            }
            assert(ps.to_set() =~= self@.dom()) by {
                assert forall|p: IVec3| ps.to_set().contains(p) == self@.dom().contains(p) by {
                    if self@.dom().contains(p) {
                        assert(self@.contains_key(p));
                        assert(ps[at[p]] == p);
                    }
                    if ps.to_set().contains(p) {
                        let i = choose|i: int| 0 <= i < ps.len() && ps[i] == p;
                        assert(map_get(self@, out@[i].0) is Some);
                    }
                }
            }
            ps.unique_seq_to_set();
        }
        out
    }

    /// Smallest box holding every occupied cell, as `(min, max)` corners;
    /// `None` for an empty grid.
    pub fn bounding_box(&self) -> (r: Option<(IVec3, IVec3)>)
        requires
            self.wf(),
        ensures
            r is None <==> self@.dom().len() == 0,
            r matches Some((mn, mx)) ==> is_bounding_box(self@.dom(), mn, mx),
    {
        let cells = self.iter_occupied();
        if cells.len() == 0 {
            return None;
        }
        let mut mn = cells[0].0;
        let mut mx = cells[0].0;
        let mut i: usize = 1;
        while i < cells.len()
            invariant
                1 <= i <= cells.len(),
                forall|j: int| 0 <= j < i ==> le3(mn, #[trigger] cells@[j].0) && le3(cells@[j].0, mx),
                exists|j: int| 0 <= j < i && cells@[j].0.x == mn.x,
                exists|j: int| 0 <= j < i && cells@[j].0.y == mn.y,
                exists|j: int| 0 <= j < i && cells@[j].0.z == mn.z,
                exists|j: int| 0 <= j < i && cells@[j].0.x == mx.x,
                exists|j: int| 0 <= j < i && cells@[j].0.y == mx.y,
                exists|j: int| 0 <= j < i && cells@[j].0.z == mx.z,
            decreases cells.len() - i,
        {
            let p = cells[i].0;
            mn = mn.min(p);
            mx = mx.max(p);
            i = i + 1;
        }
        proof {
            assert forall|p: IVec3| #[trigger] self@.dom().contains(p) implies le3(mn, p) && le3(p, mx) by {
                assert(self@.contains_key(p));
                let j = choose|j: int| 0 <= j < cells.len() && cells@[j].0 == p;
                assert(le3(mn, cells@[j].0));
            }
            let j = choose|j: int| 0 <= j < cells.len() && cells@[j].0.x == mn.x;
            assert(map_get(self@, cells@[j].0) == Some(cells@[j].1));
            let j = choose|j: int| 0 <= j < cells.len() && cells@[j].0.y == mn.y;
            assert(map_get(self@, cells@[j].0) == Some(cells@[j].1));
            let j = choose|j: int| 0 <= j < cells.len() && cells@[j].0.z == mn.z;
            assert(map_get(self@, cells@[j].0) == Some(cells@[j].1));
            let j = choose|j: int| 0 <= j < cells.len() && cells@[j].0.x == mx.x;
            assert(map_get(self@, cells@[j].0) == Some(cells@[j].1));
            let j = choose|j: int| 0 <= j < cells.len() && cells@[j].0.y == mx.y;
            assert(map_get(self@, cells@[j].0) == Some(cells@[j].1));
            let j = choose|j: int| 0 <= j < cells.len() && cells@[j].0.z == mx.z;
            assert(map_get(self@, cells@[j].0) == Some(cells@[j].1));
        }
        Some((mn, mx))
    }

    /// Empties the grid, marking every chunk that held cells for a rebuild
    /// and clearing the large-scene latch.
    pub fn clear(&mut self)
        requires
            old(self).wf(),
        ensures
            final(self).wf(),
            final(self)@ == Map::<IVec3, Color8>::empty(),
            final(self).dirty_view() == old(self).dirty_view().union(occupied_chunks(old(self)@)),
            final(self).spec_dirty(),
            !final(self).spec_warned_large(),
    {
        let mut keys: Vec<i128> = Vec::new();
        for k in it: self.chunks.keys()
            invariant
                it.seq() == spec_keys_iter(&self.chunks).remaining(),
                keys@.len() == it.index(),
                forall|j: int| 0 <= j < it.index() ==> keys@[j] == *it.seq()[j],
        {
            keys.push(*k);
        }
        let ghost ks = spec_keys_iter(&self.chunks).remaining();
        proof {
            assert(keys@ =~= ks.unref());
        }
        let ghost old_dirty = self.dirty_chunks@;
        let mut i: usize = 0;
        while i < keys.len()
            invariant
                i <= keys.len(),
                self.dirty_chunks@ == old_dirty.union(keys@.take(i as int).to_set()),
            decreases keys.len() - i,
        {
            self.dirty_chunks.insert(keys[i]);
            proof {
                assert(keys@.take(i + 1 as int) =~= keys@.take(i as int).push(keys@[i as int]));
                keys@.take(i as int).lemma_push_to_set_commute(keys@[i as int]);
            }
            i = i + 1;
        }
        proof {
            assert(keys@.take(keys.len() as int) =~= keys@);
            assert forall|c: IVec3| #[trigger] self.dirty_view().contains(c) == old(
                self,
            ).dirty_view().union(occupied_chunks(old(self)@)).contains(c) by {
                if valid_chunk(c) {
                    old(self).lemma_loaded(c);
                    lemma_key_range(c);
                } else if occupied_chunks(old(self)@).contains(c) {
                    old(self).lemma_occupied_valid(c);
                }
            }
            assert(self.dirty_view() =~= old(self).dirty_view().union(occupied_chunks(old(self)@)));
        }
        self.chunks.clear();
        self.dirty = true;
        self.total_count = 0;
        self.warned_large = false;
        self.cells = Ghost(Map::empty());
        proof {
            assert forall|p: IVec3| #[trigger]
                stored_cell(self.chunks@, p) == map_get(self.cells@, p) by {
            }
            assert(self.cells@.dom() =~= Set::<IVec3>::empty());
        }
    }
}

impl Default for VoxelGrid {
    fn default() -> (g: Self)
        ensures
            g.wf(),
            g@ == Map::<IVec3, Color8>::empty(),
            g.dirty_view() == Set::<IVec3>::empty(),
            !g.spec_dirty(),
            !g.spec_warned_large(),
    {
        VoxelGrid::new()
    }
}

/// Cell `k` of the scan of the box around the origin (`x` and `z` in
/// `-4..=4`, `y` in `0..=4`), by `x`, then `y`, then `z`.
pub open spec fn near_cell(k: int) -> IVec3 {
    IVec3 { x: (k / 45 - 4) as i32, y: ((k / 9) % 5) as i32, z: (k % 9 - 4) as i32 }
}

/// How many of the first `k` scanned cells are occupied in `m`.
pub open spec fn near_prefix(m: Map<IVec3, Color8>, k: nat) -> nat
    decreases k,
{
    if k == 0 {
        0
    } else {
        near_prefix(m, (k - 1) as nat) + if m.contains_key(near_cell(k - 1)) {
            1nat
        } else {
            0nat
        }
    }
}

proof fn lemma_near_prefix_mono(m: Map<IVec3, Color8>, j: nat, k: nat)
    requires
        j <= k,
    ensures
        near_prefix(m, j) <= near_prefix(m, k),
    decreases k - j,
{
    if j < k {
        lemma_near_prefix_mono(m, j, (k - 1) as nat);
    }
}

/// How many cells of the box around the origin (`x` and `z` in `-4..=4`,
/// `y` in `0..=4`) are occupied, capped at eight. Only those 405 cells are
/// probed, however large the scene.
pub fn origin_near_count(grid: &VoxelGrid) -> (r: usize)
    requires
        grid.wf(),
    ensures
        r == if near_prefix(grid@, 405) >= 8 {
            8
        } else {
            near_prefix(grid@, 405)
        },
{
    let mut near: usize = 0;
    let mut k: usize = 0;
    while k < 405
        invariant
            grid.wf(),
            k <= 405,
            near == near_prefix(grid@, k as nat),
            near < 8,
        decreases 405 - k,
    {
        let x: i32 = (k / 45) as i32 - 4;
        let y: i32 = ((k / 9) % 5) as i32;
        let z: i32 = (k % 9) as i32 - 4;
        let p = IVec3::new(x, y, z);
        proof {
            assert(p == near_cell(k as int));
        }
        if grid.get(p).is_some() {
            near = near + 1;
            if near >= 8 {
                proof {
                    lemma_near_prefix_mono(grid@, (k + 1) as nat, 405);
                }
                return near;
            }
        }
        k = k + 1;
    }
    near
}

/// True once the scene is large enough to warn about: either counter at or
/// above its threshold.
pub fn large_scene_threshold_crossed(total_count: u32, chunk_count: u32) -> (r: bool)
    ensures
        r == (total_count >= LARGE_SCENE_CELLS || chunk_count >= LARGE_SCENE_CHUNKS),
{
    total_count >= LARGE_SCENE_CELLS || chunk_count >= LARGE_SCENE_CHUNKS
}

/// True once both counters fall below 4/5 of their thresholds, so the warning
/// latch may reset.
pub fn large_scene_warning_cleared(total_count: u32, chunk_count: u32) -> (r: bool)
    ensures
        r == (total_count < LARGE_SCENE_CELLS * 4 / 5 && chunk_count < LARGE_SCENE_CHUNKS * 4 / 5),
{
    total_count < LARGE_SCENE_CELLS * HYSTERESIS_NUM / HYSTERESIS_DEN && chunk_count
        < LARGE_SCENE_CHUNKS * HYSTERESIS_NUM / HYSTERESIS_DEN
}

} // verus!
