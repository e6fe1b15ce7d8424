//! Density changes: every cell becomes a 2×2×2 block of its color, or every
//! 2×2×2 block collapses to one cell of its majority color.

use crate::geom::{opt_color_eq, Color8, IVec3};
use crate::grid::{changes_marked, grid_set, lemma_marks_chain, lemma_no_change_marked, map_get, VoxelGrid};
use crate::history::{committed, lemma_pos_key, pos_key, pos_key_exec, stroke_takes, History};
use std::collections::HashSet;
use vstd::prelude::*;

verus! {

broadcast use vstd::std_specs::hash::group_hash_axioms;

/// Which way the density changes.
#[derive(Clone, Copy, Debug, PartialEq, Eq, Structural)]
pub enum ResampleOp {
    Double,
    Halve,
}

/// The cell-level rewrite of a density change: clear every listed cell,
/// then write every listed cell, in order.
pub struct ResamplePlan {
    pub cells_to_clear: Vec<IVec3>,
    pub cells_to_write: Vec<(IVec3, Color8)>,
    pub source_count: usize,
    pub result_count: usize,
    /// Some collapsed block held more than one color.
    pub lossy: bool,
}

/// The 2×2×2 block holding `p` (floor division of each axis by 2).
pub open spec fn half(p: IVec3) -> IVec3 {
    IVec3 { x: (p.x as int / 2) as i32, y: (p.y as int / 2) as i32, z: (p.z as int / 2) as i32 }
}

/// Cell `t` (`0..8`) of the block whose corner is `2 * b`: offsets
/// `(t / 4, t / 2 % 2, t % 2)`.
pub open spec fn sub_cell(b: IVec3, t: int) -> IVec3 {
    IVec3 { x: (2 * b.x + t / 4) as i32, y: (2 * b.y + (t / 2) % 2) as i32, z: (2 * b.z + t % 2) as i32 }
}

/// Every cell can be doubled within the `i32` range.
pub open spec fn doubles_fit(m: Map<IVec3, Color8>) -> bool {
    forall|p: IVec3|
        #![trigger m.contains_key(p)]
        m.contains_key(p) ==> {
            &&& -0x4000_0000 <= p.x < 0x4000_0000
            &&& -0x4000_0000 <= p.y < 0x4000_0000
            &&& -0x4000_0000 <= p.z < 0x4000_0000
        }
}

/// `cells` lists every cell of `m` exactly once.
pub open spec fn enumerates(cells: Seq<IVec3>, m: Map<IVec3, Color8>) -> bool {
    &&& cells.no_duplicates()
    &&& forall|p: IVec3| #[trigger] m.contains_key(p) <==> cells.contains(p)
}

/// The writes of doubling: for each listed cell in order, its eight
/// sub-cells with its color.
pub open spec fn doubled_writes(cells: Seq<IVec3>, m: Map<IVec3, Color8>) -> Seq<(IVec3, Color8)> {
    Seq::new(8 * cells.len(), |i: int| (sub_cell(cells[i / 8], i % 8), m[cells[i / 8]]))
}

/// `m` at twice the density: cell `q` holds the color of cell `half(q)`.
pub open spec fn doubled(m: Map<IVec3, Color8>) -> Map<IVec3, Color8> {
    Map::new(|q: IVec3| m.contains_key(half(q)), |q: IVec3| m[half(q)])
}

/// How many of the first `t` cells of block `b` hold color `c`.
pub open spec fn count_in(m: Map<IVec3, Color8>, b: IVec3, c: Color8, t: int) -> nat
    decreases t,
{
    if t <= 0 {
        0
    } else {
        count_in(m, b, c, t - 1) + if map_get(m, sub_cell(b, t - 1)) == Some(c) {
            1nat
        } else {
            0nat
        }
    }
}

/// How many cells of block `b` hold color `c`.
pub open spec fn block_count(m: Map<IVec3, Color8>, b: IVec3, c: Color8) -> nat {
    count_in(m, b, c, 8)
}

/// `c` occurs in block `b`, and no color occurs there more often.
pub open spec fn is_majority(m: Map<IVec3, Color8>, b: IVec3, c: Color8) -> bool {
    &&& block_count(m, b, c) > 0
    &&& forall|c2: Color8| #[trigger] block_count(m, b, c2) <= block_count(m, b, c)
}

/// Index of the first listed cell in block `b`.
pub open spec fn first_in_block(cells: Seq<IVec3>, b: IVec3) -> int {
    choose|i: int|
        0 <= i < cells.len() && half(cells[i]) == b && forall|j: int|
            0 <= j < i ==> half(#[trigger] cells[j]) != b
}

/// Block `b` holds two cells of different colors.
pub open spec fn mixed_block(m: Map<IVec3, Color8>, b: IVec3) -> bool {
    exists|p: IVec3, q: IVec3|
        m.contains_key(p) && m.contains_key(q) && half(p) == b && half(q) == b && m[p] != m[q]
}

/// Some write targets block `b`.
pub open spec fn writes_block(ws: Seq<(IVec3, Color8)>, b: IVec3) -> bool {
    exists|i: int| 0 <= i < ws.len() && (#[trigger] ws[i]).0 == b
}

/// Some cell of `m` lies in block `b`.
pub open spec fn block_occupied(m: Map<IVec3, Color8>, b: IVec3) -> bool {
    exists|p: IVec3| m.contains_key(p) && half(p) == b
}

/// Some of the first `i` listed cells lies in block `b`.
pub open spec fn listed_block(cells: Seq<IVec3>, i: int, b: IVec3) -> bool {
    exists|j: int| 0 <= j < i && half(#[trigger] cells[j]) == b
}

/// The writes of halving: one per occupied block, none twice, each the
/// block's majority color; when the color of the block's first listed cell
/// is a majority color, that color.
pub open spec fn halve_ok(cells: Seq<IVec3>, m: Map<IVec3, Color8>, ws: Seq<(IVec3, Color8)>) -> bool {
    &&& forall|i: int, j: int| 0 <= i < j < ws.len() ==> (#[trigger] ws[i]).0 != (#[trigger] ws[j]).0
    &&& forall|b: IVec3|
        #![trigger writes_block(ws, b)]
        #![trigger block_occupied(m, b)]
        writes_block(ws, b) <==> block_occupied(m, b)
    &&& forall|i: int| 0 <= i < ws.len() ==> is_majority(m, (#[trigger] ws[i]).0, ws[i].1)
    &&& forall|i: int|
        0 <= i < ws.len() ==> (is_majority(m, (#[trigger] ws[i]).0, m[cells[first_in_block(cells, ws[i].0)]])
            ==> ws[i].1 == m[cells[first_in_block(cells, ws[i].0)]])
}

// ---------------------------------------------------------------------------
// Block arithmetic
// ---------------------------------------------------------------------------

proof fn lemma_sub_cell_half(b: IVec3, t: int)
    requires
        0 <= t < 8,
        -0x4000_0000 <= b.x < 0x4000_0000,
        -0x4000_0000 <= b.y < 0x4000_0000,
        -0x4000_0000 <= b.z < 0x4000_0000,
    ensures
        half(sub_cell(b, t)) == b,
{
    let q = sub_cell(b, t);
    assert(q.x as int == 2 * b.x + t / 4);
    assert(q.y as int == 2 * b.y + (t / 2) % 2);
    assert(q.z as int == 2 * b.z + t % 2);
}

/// Every cell is one of the eight cells of its block.
proof fn lemma_cell_in_block(p: IVec3) -> (t: int)
    ensures
        0 <= t < 8,
        sub_cell(half(p), t) == p,
{
    let b = half(p);
    let ox = p.x - 2 * b.x;
    let oy = p.y - 2 * b.y;
    let oz = p.z - 2 * b.z;
    assert(0 <= ox < 2 && 0 <= oy < 2 && 0 <= oz < 2);
    let t = ox * 4 + oy * 2 + oz;
    assert(t / 4 == ox && (t / 2) % 2 == oy && t % 2 == oz);
    t
}

/// The block of any `i32` cell has room for all eight of its cells.
proof fn lemma_half_range(p: IVec3)
    ensures
        -0x4000_0000 <= half(p).x < 0x4000_0000,
        -0x4000_0000 <= half(p).y < 0x4000_0000,
        -0x4000_0000 <= half(p).z < 0x4000_0000,
{
}

proof fn lemma_count_in_pos(m: Map<IVec3, Color8>, b: IVec3, c: Color8, t0: int, t: int)
    requires
        0 <= t0 < t,
        map_get(m, sub_cell(b, t0)) == Some(c),
    ensures
        count_in(m, b, c, t) > 0,
    decreases t,
{
    if t0 < t - 1 {
        lemma_count_in_pos(m, b, c, t0, t - 1);
    }
}

proof fn lemma_count_in_witness(m: Map<IVec3, Color8>, b: IVec3, c: Color8, t: int)
    requires
        count_in(m, b, c, t) > 0,
    ensures
        exists|t0: int| 0 <= t0 < t && map_get(m, sub_cell(b, t0)) == Some(c),
    decreases t,
{
    if t > 0 && map_get(m, sub_cell(b, t - 1)) != Some(c) {
        lemma_count_in_witness(m, b, c, t - 1);
    }
}

// ---------------------------------------------------------------------------
// Planning
// ---------------------------------------------------------------------------

fn half_exec(p: IVec3) -> (b: IVec3)
    ensures
        b == half(p),
{
    let x = match p.x.checked_div_euclid(2) {
        Some(v) => v,
        None => 0,
    };
    let y = match p.y.checked_div_euclid(2) {
        Some(v) => v,
        None => 0,
    };
    let z = match p.z.checked_div_euclid(2) {
        Some(v) => v,
        None => 0,
    };
    IVec3 { x, y, z }
}

fn sub_cell_exec(b: IVec3, t: usize) -> (q: IVec3)
    requires
        t < 8,
        -0x4000_0000 <= b.x < 0x4000_0000,
        -0x4000_0000 <= b.y < 0x4000_0000,
        -0x4000_0000 <= b.z < 0x4000_0000,
    ensures
        q == sub_cell(b, t as int),
{
    let ti = t as i32;
    IVec3 { x: 2 * b.x + ti / 4, y: 2 * b.y + (ti / 2) % 2, z: 2 * b.z + ti % 2 }
}

/// The colors of the eight cells of block `b`.
fn block_colors(grid: &VoxelGrid, b: IVec3) -> (r: Vec<Option<Color8>>)
    requires
        grid.wf(),
        -0x4000_0000 <= b.x < 0x4000_0000,
        -0x4000_0000 <= b.y < 0x4000_0000,
        -0x4000_0000 <= b.z < 0x4000_0000,
    ensures
        r@.len() == 8,
        forall|t: int| 0 <= t < 8 ==> #[trigger] r@[t] == map_get(grid@, sub_cell(b, t)),
{
    let mut r: Vec<Option<Color8>> = Vec::new();
    let mut t: usize = 0;
    while t < 8
        invariant
            t <= 8,
            grid.wf(),
            -0x4000_0000 <= b.x < 0x4000_0000,
            -0x4000_0000 <= b.y < 0x4000_0000,
            -0x4000_0000 <= b.z < 0x4000_0000,
            r@.len() == t,
            forall|j: int| 0 <= j < t ==> #[trigger] r@[j] == map_get(grid@, sub_cell(b, j)),
        decreases 8 - t,
    {
        let q = sub_cell_exec(b, t);
        r.push(grid.get(q));
        t = t + 1;
    }
    r
}

/// How many of the colors are `c`.
fn count_color(cols: &Vec<Option<Color8>>, c: Color8, Ghost(m): Ghost<Map<IVec3, Color8>>, Ghost(b): Ghost<IVec3>) -> (n: usize)
    requires
        cols@.len() == 8,
        forall|t: int| 0 <= t < 8 ==> #[trigger] cols@[t] == map_get(m, sub_cell(b, t)),
    ensures
        n == block_count(m, b, c),
{
    let mut n: usize = 0;
    let mut t: usize = 0;
    let oc = Some(c);
    while t < 8
        invariant
            t <= 8,
            cols@.len() == 8,
            oc == Some(c),
            forall|j: int| 0 <= j < 8 ==> #[trigger] cols@[j] == map_get(m, sub_cell(b, j)),
            n == count_in(m, b, c, t as int),
            n <= t,
        decreases 8 - t,
    {
        if opt_color_eq(&cols[t], &oc) {
            n = n + 1;
        }
        t = t + 1;
    }
    n
}

/// The majority color of a block whose first listed cell has color `first`,
/// and whether the block holds a second color.
fn block_majority(cols: &Vec<Option<Color8>>, first: Color8, Ghost(m): Ghost<Map<IVec3, Color8>>, Ghost(b): Ghost<IVec3>, Ghost(t0): Ghost<int>) -> (r: (Color8, bool))
    requires
        cols@.len() == 8,
        forall|t: int| 0 <= t < 8 ==> #[trigger] cols@[t] == map_get(m, sub_cell(b, t)),
        0 <= t0 < 8,
        map_get(m, sub_cell(b, t0)) == Some(first),
    ensures
        is_majority(m, b, r.0),
        is_majority(m, b, first) ==> r.0 == first,
        r.1 <==> exists|t: int| 0 <= t < 8 && #[trigger] map_get(m, sub_cell(b, t)) is Some && map_get(m, sub_cell(b, t)) != Some(first),
{
    let mut best = first;
    let mut best_count = count_color(cols, first, Ghost(m), Ghost(b));
    let mut mixed = false;
    proof {
        lemma_count_in_pos(m, b, first, t0, 8);
    }
    let mut t: usize = 0;
    while t < 8
        invariant
            t <= 8,
            cols@.len() == 8,
            forall|j: int| 0 <= j < 8 ==> #[trigger] cols@[j] == map_get(m, sub_cell(b, j)),
            best_count == block_count(m, b, best),
            block_count(m, b, first) > 0,
            block_count(m, b, first) <= best_count,
            best == first || block_count(m, b, first) < best_count,
            forall|j: int| 0 <= j < t ==> (#[trigger] cols@[j] matches Some(x) ==> block_count(m, b, x) <= best_count),
            mixed <==> exists|j: int| 0 <= j < t && #[trigger] map_get(m, sub_cell(b, j)) is Some && map_get(m, sub_cell(b, j)) != Some(first),
        decreases 8 - t,
    {
        match cols[t] {
            Some(x) => {
                if !opt_color_eq(&cols[t], &Some(first)) {
                    mixed = true;
                }
                let n = count_color(cols, x, Ghost(m), Ghost(b));
                if n > best_count {
                    best = x;
                    best_count = n;
                }
            },
            None => {},
        }
        proof {
            assert(cols@[t as int] == map_get(m, sub_cell(b, t as int)));
        }
        t = t + 1;
    }
    proof {
        assert forall|c2: Color8| #[trigger] block_count(m, b, c2) <= block_count(m, b, best) by {
            if block_count(m, b, c2) > 0 {
                lemma_count_in_witness(m, b, c2, 8);
                let j = choose|j: int| 0 <= j < 8 && map_get(m, sub_cell(b, j)) == Some(c2);
                assert(cols@[j] == Some(c2));
            }
        }
    }
    (best, mixed)
}

/// Cell `i` is the first listed cell of its block when no earlier one is.
proof fn lemma_first_in_block(cells: Seq<IVec3>, i: int, b: IVec3)
    requires
        0 <= i < cells.len(),
        half(cells[i]) == b,
        forall|j: int| 0 <= j < i ==> half(#[trigger] cells[j]) != b,
    ensures
        first_in_block(cells, b) == i,
{
    let f = first_in_block(cells, b);
    assert(0 <= f < cells.len() && half(cells[f]) == b && forall|j: int| 0 <= j < f ==> half(#[trigger] cells[j]) != b) by {
        assert(0 <= i < cells.len() && half(cells[i]) == b);
    }
    if f > i {
        assert(half(cells[i]) != b);
    }
}

/// A block is mixed exactly when one of its cells holds a color other than
/// that of a given cell in it.
proof fn lemma_mixed_block(m: Map<IVec3, Color8>, p: IVec3)
    requires
        m.contains_key(p),
    ensures
        mixed_block(m, half(p)) <==> exists|t: int|
            0 <= t < 8 && #[trigger] map_get(m, sub_cell(half(p), t)) is Some && map_get(m, sub_cell(half(p), t))
                != Some(m[p]),
{
    let b = half(p);
    let c = m[p];
    lemma_half_range(p);
    if exists|t: int| 0 <= t < 8 && #[trigger] map_get(m, sub_cell(b, t)) is Some && map_get(m, sub_cell(b, t)) != Some(c) {
        let t = choose|t: int| 0 <= t < 8 && #[trigger] map_get(m, sub_cell(b, t)) is Some && map_get(m, sub_cell(b, t)) != Some(c);
        let q = sub_cell(b, t);
        lemma_sub_cell_half(b, t);
        assert(m.contains_key(q) && m.contains_key(p) && half(q) == b && half(p) == b && m[q] != m[p]);
    }
    if mixed_block(m, b) {
        let (x, y) = choose|x: IVec3, y: IVec3| m.contains_key(x) && m.contains_key(y) && half(x) == b && half(y) == b && m[x] != m[y];
        let tx = lemma_cell_in_block(x);
        let ty = lemma_cell_in_block(y);
        if m[x] != c {
            assert(map_get(m, sub_cell(b, tx)) is Some);
        } else {
            assert(map_get(m, sub_cell(b, ty)) is Some);
        }
    }
}

/// The writes and lossiness of halving, for the cells listed in `clear`
/// with their colors in `occupied`.
#[verifier::rlimit(40)]
fn plan_halve(grid: &VoxelGrid, occupied: &Vec<(IVec3, Color8)>, clear: &Vec<IVec3>) -> (r: (Vec<(IVec3, Color8)>, bool))
    requires
        grid.wf(),
        enumerates(clear@, grid@),
        clear@.len() == occupied@.len(),
        forall|j: int| 0 <= j < clear@.len() ==> #[trigger] clear@[j] == occupied@[j].0,
        forall|j: int| 0 <= j < occupied@.len() ==> #[trigger] map_get(grid@, occupied@[j].0) == Some(occupied@[j].1),
    ensures
        halve_ok(clear@, grid@, r.0@),
        r.0@.len() <= clear@.len(),
        r.1 <==> exists|p: IVec3| grid@.contains_key(p) && mixed_block(grid@, half(p)),
{
    let ghost cells = clear@;
    let ghost m = grid@;
    let n = clear.len();
    let mut done: HashSet<i128> = HashSet::new();
    let mut writes: Vec<(IVec3, Color8)> = Vec::new();
    let mut lossy = false;
    let mut i: usize = 0;
    while i < n
        invariant
            i <= n,
            n == cells.len(),
            cells == clear@,
            m == grid@,
            n == occupied@.len(),
            grid.wf(),
            enumerates(cells, m),
            forall|j: int| 0 <= j < n ==> #[trigger] clear@[j] == occupied@[j].0,
            forall|j: int| 0 <= j < occupied@.len() ==> #[trigger] map_get(m, occupied@[j].0) == Some(occupied@[j].1),
            forall|k: i128| done@.contains(k) <==> exists|j: int| 0 <= j < i && k == pos_key(half(#[trigger] cells[j])),
            forall|a: int, b: int| 0 <= a < b < writes@.len() ==> (#[trigger] writes@[a]).0 != (#[trigger] writes@[b]).0,
            forall|bk: IVec3|
                #![trigger writes_block(writes@, bk)]
                #![trigger listed_block(cells, i as int, bk)]
                writes_block(writes@, bk) <==> listed_block(cells, i as int, bk),
            forall|w: int| 0 <= w < writes@.len() ==> is_majority(m, (#[trigger] writes@[w]).0, writes@[w].1),
            forall|w: int| 0 <= w < writes@.len() ==> (is_majority(m, (#[trigger] writes@[w]).0, m[cells[first_in_block(cells, writes@[w].0)]])
                ==> writes@[w].1 == m[cells[first_in_block(cells, writes@[w].0)]]),
            lossy <==> exists|j: int| 0 <= j < i && mixed_block(m, half(#[trigger] cells[j])),
            writes@.len() <= i,
        decreases n - i,
    {
        let (p, c) = occupied[i];
        let b = half_exec(p);
        let key = pos_key_exec(b);
        proof {
            assert(cells[i as int] == p);
            assert(map_get(m, p) == Some(c));
            lemma_half_range(p);
        }
        let ghost wb = writes@;
        if !done.contains(&key) {
            done.insert(key);
            let cols = block_colors(grid, b);
            let ghost t0 = lemma_cell_in_block(p);
            let (best, mixed) = block_majority(&cols, c, Ghost(m), Ghost(b), Ghost(t0));
            writes.push((b, best));
            if mixed {
                lossy = true;
            }
            proof {
                assert forall|j: int| 0 <= j < i implies half(#[trigger] cells[j]) != b by {
                    if half(cells[j]) == b {
                        assert(done@.contains(pos_key(half(cells[j]))));
                    }
                }
                lemma_first_in_block(cells, i as int, b);
                lemma_mixed_block(m, p);
                assert(writes@[wb.len() as int].0 == b);
                assert(writes_block(writes@, b));
                assert forall|w: int| 0 <= w < wb.len() implies (#[trigger] wb[w]).0 != b by {
                    if wb[w].0 == b {
                        assert(writes_block(wb, b));
                    }
                }
            }
        } else {
            proof {
                let j = choose|j: int| 0 <= j < i && key == pos_key(half(#[trigger] cells[j]));
                lemma_pos_key(b, half(cells[j]));
                assert(half(cells[j]) == b);
                lemma_mixed_block(m, p);
                lemma_mixed_block(m, cells[j]);
            }
        }
        proof {
            assert forall|k: i128| done@.contains(k) <==> exists|j: int| 0 <= j < i + 1 && k == pos_key(half(#[trigger] cells[j])) by {
                if exists|j: int| 0 <= j < i + 1 && k == pos_key(half(#[trigger] cells[j])) {
                    let j = choose|j: int| 0 <= j < i + 1 && k == pos_key(half(#[trigger] cells[j]));
                    if j < i {
                        assert(exists|j: int| 0 <= j < i && k == pos_key(half(#[trigger] cells[j])));
                    }
                }
            }
            assert forall|bk: IVec3| #[trigger] writes_block(writes@, bk) <==> listed_block(cells, i + 1, bk) by {
                if listed_block(cells, i + 1, bk) {
                    let j = choose|j: int| 0 <= j < i + 1 && half(#[trigger] cells[j]) == bk;
                    if j < i {
                        assert(listed_block(cells, i as int, bk));
                        assert(writes_block(wb, bk));
                        let w = choose|w: int| 0 <= w < wb.len() && (#[trigger] wb[w]).0 == bk;
                        assert(writes@[w] == wb[w]);
                    } else {
                        assert(half(cells[j]) == b);
                        if !writes_block(writes@, bk) {
                            assert(done@.contains(key));
                            let j2 = choose|j2: int| 0 <= j2 < i && key == pos_key(half(#[trigger] cells[j2]));
                            lemma_pos_key(b, half(cells[j2]));
                            assert(listed_block(cells, i as int, bk));
                            assert(writes_block(wb, bk));
                            let w = choose|w: int| 0 <= w < wb.len() && (#[trigger] wb[w]).0 == bk;
                            assert(writes@[w] == wb[w]);
                        }
                    }
                }
                if writes_block(writes@, bk) {
                    let w = choose|w: int| 0 <= w < writes@.len() && (#[trigger] writes@[w]).0 == bk;
                    if w < wb.len() {
                        assert(wb[w] == writes@[w]);
                        assert(writes_block(wb, bk));
                        assert(listed_block(cells, i as int, bk));
                        let j = choose|j: int| 0 <= j < i && half(#[trigger] cells[j]) == bk;
                        assert(0 <= j < i + 1 && half(cells[j]) == bk);
                    } else {
                        assert(half(cells[i as int]) == bk);
                    }
                }
            }
            assert(lossy <==> exists|j: int| 0 <= j < i + 1 && mixed_block(m, half(#[trigger] cells[j]))) by {
                if exists|j: int| 0 <= j < i + 1 && mixed_block(m, half(#[trigger] cells[j])) {
                    let j = choose|j: int| 0 <= j < i + 1 && mixed_block(m, half(#[trigger] cells[j]));
                    if j < i {
                        assert(exists|j: int| 0 <= j < i && mixed_block(m, half(#[trigger] cells[j])));
                    }
                }
            }
        }
        i = i + 1;
    }
    proof {
        assert forall|bk: IVec3| #[trigger] writes_block(writes@, bk) <==> block_occupied(m, bk) by {
            if block_occupied(m, bk) {
                let p = choose|p: IVec3| m.contains_key(p) && half(p) == bk;
                assert(cells.contains(p));
                let j = choose|j: int| 0 <= j < cells.len() && cells[j] == p;
                assert(half(cells[j]) == bk);
                assert(listed_block(cells, n as int, bk));
            }
            if writes_block(writes@, bk) {
                assert(listed_block(cells, n as int, bk));
                let j = choose|j: int| 0 <= j < n && half(#[trigger] cells[j]) == bk;
                assert(m.contains_key(cells[j]));
            }
        }
        assert(lossy <==> exists|p: IVec3| m.contains_key(p) && mixed_block(m, half(p))) by {
            if lossy {
                let j = choose|j: int| 0 <= j < n && mixed_block(m, half(#[trigger] cells[j]));
                assert(m.contains_key(cells[j]));
            }
            if exists|p: IVec3| m.contains_key(p) && mixed_block(m, half(p)) {
                let p = choose|p: IVec3| m.contains_key(p) && mixed_block(m, half(p));
                assert(cells.contains(p));
                let j = choose|j: int| 0 <= j < cells.len() && cells[j] == p;
                assert(mixed_block(m, half(cells[j])));
            }
        }
    }
    (writes, lossy)
}

/// The rewrite plan for a density change.
///
/// `Double`: every cell, in the order listed for clearing, emits its eight
/// sub-cells with its color; never lossy.
///
/// `Halve`: every occupied 2×2×2 block collapses to one cell at the block
/// coordinate, with the block's majority color; ties go to the color of the
/// block's first listed cell when it is among them. Lossy when some block
/// held more than one color.
pub fn plan_resample(grid: &VoxelGrid, op: ResampleOp) -> (plan: ResamplePlan)
    requires
        grid.wf(),
        op == ResampleOp::Double ==> doubles_fit(grid@),
    ensures
        enumerates(plan.cells_to_clear@, grid@),
        plan.cells_to_clear@.len() == grid@.dom().len(),
        plan.source_count == plan.cells_to_clear@.len(),
        plan.result_count == plan.cells_to_write@.len(),
        op == ResampleOp::Double ==> plan.cells_to_write@ == doubled_writes(plan.cells_to_clear@, grid@)
            && !plan.lossy,
        op == ResampleOp::Halve ==> halve_ok(plan.cells_to_clear@, grid@, plan.cells_to_write@)
            && plan.cells_to_write@.len() <= plan.cells_to_clear@.len()
            && (plan.lossy <==> exists|p: IVec3| grid@.contains_key(p) && mixed_block(grid@, half(p))),
{
    let occupied = grid.iter_occupied();
    let mut clear: Vec<IVec3> = Vec::new();
    let mut i: usize = 0;
    while i < occupied.len()
        invariant
            i <= occupied@.len(),
            clear@.len() == i,
            forall|j: int| 0 <= j < i ==> #[trigger] clear@[j] == occupied@[j].0,
        decreases occupied.len() - i,
    {
        clear.push(occupied[i].0);
        i = i + 1;
    }
    proof {
        assert forall|a: int, b: int| 0 <= a < b < clear@.len() implies clear@[a] != clear@[b] by {}
        assert forall|p: IVec3| #[trigger] grid@.contains_key(p) <==> clear@.contains(p) by {
            if grid@.contains_key(p) {
                let j = choose|j: int| 0 <= j < occupied@.len() && occupied@[j].0 == p;
                assert(clear@[j] == p);
            }
            if clear@.contains(p) {
                let j = choose|j: int| 0 <= j < clear@.len() && clear@[j] == p;
                assert(map_get(grid@, occupied@[j].0) == Some(occupied@[j].1));
            }
        }
    }
    let n = clear.len();
    match op {
        ResampleOp::Double => {
            let ghost cells = clear@;
            let mut writes: Vec<(IVec3, Color8)> = Vec::new();
            let mut i: usize = 0;
            while i < n
                invariant
                    i <= n,
                    n == clear@.len(),
                    cells == clear@,
                    n == occupied@.len(),
                    grid.wf(),
                    doubles_fit(grid@),
                    forall|j: int| 0 <= j < n ==> #[trigger] clear@[j] == occupied@[j].0,
                    forall|j: int| 0 <= j < occupied@.len() ==> #[trigger] map_get(grid@, occupied@[j].0) == Some(occupied@[j].1),
                    writes@ == doubled_writes(cells.take(i as int), grid@),
                decreases n - i,
            {
                let (p, c) = occupied[i];
                assert(map_get(grid@, p) == Some(c));
                assert(grid@.contains_key(p));
                let ghost before = writes@;
                let mut t: usize = 0;
                while t < 8
                    invariant
                        t <= 8,
                        grid@.contains_key(p),
                        doubles_fit(grid@),
                        writes@.len() == before.len() + t,
                        forall|j: int| 0 <= j < before.len() ==> #[trigger] writes@[j] == before[j],
                        forall|j: int| 0 <= j < t ==> #[trigger] writes@[before.len() + j] == (sub_cell(p, j), c),
                    decreases 8 - t,
                {
                    let q = sub_cell_exec(p, t);
                    writes.push((q, c));
                    t = t + 1;
                }
                proof {
                    let ci = cells.take(i + 1);
                    assert(ci[i as int] == p);
                    assert forall|j: int| 0 <= j < 8 * (i + 1) implies #[trigger] writes@[j] == doubled_writes(ci, grid@)[j] by {
                        if j < 8 * i {
                            assert(j / 8 < i) by (nonlinear_arith) requires 0 <= j < 8 * i;
                            assert(cells.take(i as int)[j / 8] == ci[j / 8]);
                        } else {
                            assert(j / 8 == i && j % 8 == j - 8 * i) by (nonlinear_arith) requires 8 * i <= j < 8 * (i + 1);
                            assert(writes@[before.len() + (j - 8 * i)] == (sub_cell(p, j - 8 * i), c));
                        }
                    }
                    assert(writes@ =~= doubled_writes(ci, grid@));
                }
                i = i + 1;
            }
            proof {
                assert(cells.take(n as int) =~= cells);
            }
            let result_count = writes.len();
            ResamplePlan { cells_to_clear: clear, cells_to_write: writes, source_count: n, result_count, lossy: false }
        },
        ResampleOp::Halve => {
            let (writes, lossy) = plan_halve(grid, &occupied, &clear);
            let result_count = writes.len();
            ResamplePlan { cells_to_clear: clear, cells_to_write: writes, source_count: n, result_count, lossy }
        },
    }
}

/// `m` after writing each `(cell, color)` of `ws` in order.
pub open spec fn apply_writes(m: Map<IVec3, Color8>, ws: Seq<(IVec3, Color8)>) -> Map<IVec3, Color8>
    decreases ws.len(),
{
    if ws.len() == 0 {
        m
    } else {
        grid_set(apply_writes(m, ws.drop_last()), ws.last().0, Some(ws.last().1))
    }
}

pub(crate) proof fn lemma_apply_writes_len(m: Map<IVec3, Color8>, ws: Seq<(IVec3, Color8)>)
    requires
        m.dom().finite(),
    ensures
        apply_writes(m, ws).dom().finite(),
        apply_writes(m, ws).dom().len() <= m.dom().len() + ws.len(),
    decreases ws.len(),
{
    if ws.len() > 0 {
        lemma_apply_writes_len(m, ws.drop_last());
        crate::history::lemma_grid_set_len(apply_writes(m, ws.drop_last()), ws.last().0, Some(ws.last().1));
    }
}

/// Applies a density change as one undo stroke: every cell is cleared, then
/// the plan's cells are written in order. Returns the plan, whose counts
/// and lossiness the editor reports; an empty grid is left alone and gives
/// `None`.
pub fn apply_resample(grid: &mut VoxelGrid, history: &mut History, op: ResampleOp) -> (r: Option<ResamplePlan>)
    requires
        old(grid).wf(),
        old(history).wf(),
        old(grid)@.dom().len() < u32::MAX,
        op == ResampleOp::Double ==> doubles_fit(old(grid)@),
        op == ResampleOp::Double ==> 8 * old(grid)@.dom().len() < u32::MAX,
    ensures
        final(grid).wf(),
        final(history).wf(),
        old(grid).dirty_view().subset_of(final(grid).dirty_view()),
        changes_marked(old(grid)@, final(grid)@, final(grid).dirty_view()),
        old(grid)@.dom().len() == 0 ==> r is None && final(grid)@ == old(grid)@ && *final(history) == *old(history),
        old(grid)@.dom().len() > 0 ==> (r matches Some(plan) && {
            &&& enumerates(plan.cells_to_clear@, old(grid)@)
            &&& plan.source_count == plan.cells_to_clear@.len()
            &&& plan.result_count == plan.cells_to_write@.len()
            &&& op == ResampleOp::Double ==> plan.cells_to_write@ == doubled_writes(plan.cells_to_clear@, old(grid)@)
                && !plan.lossy
            &&& op == ResampleOp::Halve ==> halve_ok(plan.cells_to_clear@, old(grid)@, plan.cells_to_write@)
                && (plan.lossy <==> exists|p: IVec3| old(grid)@.contains_key(p) && mixed_block(old(grid)@, half(p)))
            &&& final(grid)@ == apply_writes(Map::empty(), plan.cells_to_write@)
            &&& op == ResampleOp::Double ==> final(grid)@ == doubled(old(grid)@)
            &&& committed(old(history).undo@, old(history).redo@, *final(history), old(grid)@, final(grid)@)
        }),
{
    proof {
        grid.lemma_finite();
        lemma_no_change_marked(grid@, grid.dirty_view());
    }
    if grid.count() == 0 {
        return None;
    }
    let plan = plan_resample(grid, op);
    let ghost g0 = grid@;
    let ghost d0 = grid.dirty_view();
    proof {
        grid.lemma_finite();
    }
    let ghost u0 = history.undo@;
    let ghost r0 = history.redo@;
    let ghost cells = plan.cells_to_clear@;
    history.begin();
    proof {
        assert(g0.remove_keys(cells.take(0).to_set()) =~= g0);
    }
    let mut i: usize = 0;
    while i < plan.cells_to_clear.len()
        invariant
            grid.wf(),
            history.wf(),
            history.undo@ == u0,
            history.redo@ == r0,
            history.current matches Some(st) && stroke_takes(g0, grid@, st.deltas@),
            cells == plan.cells_to_clear@,
            i <= cells.len(),
            d0.subset_of(grid.dirty_view()),
            changes_marked(g0, grid@, grid.dirty_view()),
            g0.dom().finite(),
            g0.dom().len() < u32::MAX,
            grid@ == g0.remove_keys(cells.take(i as int).to_set()),
        decreases cells.len() - i,
    {
        let p = plan.cells_to_clear[i];
        let ghost before = grid@;
        proof {
            assert(cells.take(i + 1) =~= cells.take(i as int).push(p));
            cells.take(i as int).lemma_push_to_set_commute(p);
            assert(before.dom().subset_of(g0.dom()));
            vstd::set_lib::lemma_len_subset(before.dom(), g0.dom());
            grid.lemma_finite();
        }
        let ghost db = grid.dirty_view();
        history.record(grid, p, None);
        proof {
            lemma_marks_chain(g0, before, grid@, db, grid.dirty_view());
            assert(grid@ =~= g0.remove_keys(cells.take(i + 1).to_set()));
        }
        i = i + 1;
    }
    proof {
        assert(cells.take(cells.len() as int) =~= cells);
        assert(grid@ =~= Map::<IVec3, Color8>::empty());
    }
    let ghost ws = plan.cells_to_write@;
    let mut k: usize = 0;
    while k < plan.cells_to_write.len()
        invariant
            grid.wf(),
            history.wf(),
            history.undo@ == u0,
            history.redo@ == r0,
            history.current matches Some(st) && stroke_takes(g0, grid@, st.deltas@),
            ws == plan.cells_to_write@,
            k <= ws.len(),
            d0.subset_of(grid.dirty_view()),
            changes_marked(g0, grid@, grid.dirty_view()),
            ws.len() < u32::MAX,
            grid@ == apply_writes(Map::empty(), ws.take(k as int)),
        decreases ws.len() - k,
    {
        let (p, c) = plan.cells_to_write[k];
        proof {
            lemma_apply_writes_len(Map::empty(), ws.take(k as int));
            assert(Map::<IVec3, Color8>::empty().dom() =~= Set::empty());
        }
        let ghost mb = grid@;
        let ghost db = grid.dirty_view();
        history.record(grid, p, Some(c));
        proof {
            lemma_marks_chain(g0, mb, grid@, db, grid.dirty_view());
            let t = ws.take(k + 1);
            assert(t.drop_last() =~= ws.take(k as int));
        }
        k = k + 1;
    }
    proof {
        assert(ws.take(ws.len() as int) =~= ws);
        if op == ResampleOp::Double {
            law_double_writes(cells, g0);
        }
    }
    history.commit(Ghost(g0), Ghost(grid@));
    Some(plan)
}

// ---------------------------------------------------------------------------
// Laws
// ---------------------------------------------------------------------------

/// Writing cells at distinct positions, none below the floor, into an empty
/// grid gives exactly those cells.
pub(crate) proof fn lemma_apply_distinct(ws: Seq<(IVec3, Color8)>)
    requires
        forall|i: int, j: int| 0 <= i < j < ws.len() ==> (#[trigger] ws[i]).0 != (#[trigger] ws[j]).0,
        forall|i: int| 0 <= i < ws.len() ==> (#[trigger] ws[i]).0.y >= 0,
    ensures
        forall|p: IVec3| #[trigger] apply_writes(Map::empty(), ws).contains_key(p) <==> writes_block(ws, p),
        forall|i: int| 0 <= i < ws.len() ==> apply_writes(Map::empty(), ws)[(#[trigger] ws[i]).0] == ws[i].1,
    decreases ws.len(),
{
    if ws.len() > 0 {
        let w = ws.drop_last();
        let n = ws.len() - 1;
        assert forall|i: int| 0 <= i < w.len() implies #[trigger] w[i] == ws[i] by {}
        lemma_apply_distinct(w);
        assert(apply_writes(Map::empty(), ws) == grid_set(apply_writes(Map::empty(), w), ws[n].0, Some(ws[n].1)));
        assert(ws[n].0.y >= 0);
        assert forall|p: IVec3| #[trigger] apply_writes(Map::empty(), ws).contains_key(p) <==> writes_block(ws, p) by {
            if writes_block(w, p) {
                let i = choose|i: int| 0 <= i < w.len() && (#[trigger] w[i]).0 == p;
                assert(ws[i].0 == p);
                assert(writes_block(ws, p));
            }
            if writes_block(ws, p) && p != ws[n].0 {
                let i = choose|i: int| 0 <= i < ws.len() && (#[trigger] ws[i]).0 == p;
                assert(w[i] == ws[i]);
                assert(writes_block(w, p));
            }
            if p == ws[n].0 {
                assert(writes_block(ws, p));
            }
        }
        assert forall|i: int| 0 <= i < ws.len() implies apply_writes(Map::empty(), ws)[(#[trigger] ws[i]).0] == ws[i].1 by {
            if i < n {
                assert(w[i] == ws[i]);
                assert(ws[i].0 != ws[n].0);
            }
        }
    }
}

/// Doubling writes every cell `q` whose block holds a cell of `m`, in that
/// cell's color: the grid after a doubling is `doubled(m)`.
pub proof fn law_double_writes(cells: Seq<IVec3>, m: Map<IVec3, Color8>)
    requires
        enumerates(cells, m),
        doubles_fit(m),
        forall|p: IVec3| #[trigger] m.contains_key(p) ==> p.y >= 0,
    ensures
        apply_writes(Map::empty(), doubled_writes(cells, m)) == doubled(m),
{
    let ws = doubled_writes(cells, m);
    assert forall|i: int| 0 <= i < ws.len() implies half((#[trigger] ws[i]).0) == cells[i / 8] && ws[i].0.y >= 0 by {
        assert(0 <= i / 8 < cells.len()) by (nonlinear_arith) requires 0 <= i < 8 * cells.len();
        let k = i / 8;
        assert(cells.contains(cells[k]));
        assert(m.contains_key(cells[k]));
        lemma_sub_cell_half(cells[k], i % 8);
    }
    assert forall|i: int, j: int| 0 <= i < j < ws.len() implies (#[trigger] ws[i]).0 != (#[trigger] ws[j]).0 by {
        if ws[i].0 == ws[j].0 {
            let (a, b) = (i / 8, j / 8);
            assert(half(ws[i].0) == cells[a] && half(ws[j].0) == cells[b]);
            assert(a == b);
            assert(i % 8 != j % 8) by (nonlinear_arith) requires 0 <= i < j, i / 8 == j / 8;
            let c = cells[a];
            assert(0 <= i % 8 < 8 && 0 <= j % 8 < 8);
            let (ti, tj) = (i % 8, j % 8);
            assert(sub_cell(c, ti).x == sub_cell(c, tj).x ==> ti / 4 == tj / 4);
            assert(ti / 4 == tj / 4 && (ti / 2) % 2 == (tj / 2) % 2 && ti % 2 == tj % 2 ==> ti == tj) by (nonlinear_arith)
                requires 0 <= ti < 8, 0 <= tj < 8;
        }
    }
    lemma_apply_distinct(ws);
    let r = apply_writes(Map::empty(), ws);
    assert forall|q: IVec3| #[trigger] r.contains_key(q) <==> doubled(m).contains_key(q) by {
        if r.contains_key(q) {
            let i = choose|i: int| 0 <= i < ws.len() && (#[trigger] ws[i]).0 == q;
            assert(half(q) == cells[i / 8]);
            assert(cells.contains(cells[i / 8]));
        }
        if doubled(m).contains_key(q) {
            let b = half(q);
            assert(cells.contains(b));
            let k = choose|k: int| 0 <= k < cells.len() && cells[k] == b;
            let t = lemma_cell_in_block(q);
            let i = 8 * k + t;
            assert(i / 8 == k && i % 8 == t) by (nonlinear_arith) requires i == 8 * k + t, 0 <= t < 8;
            assert(0 <= i < ws.len()) by (nonlinear_arith) requires i == 8 * k + t, 0 <= t < 8, 0 <= k < cells.len(), ws.len() == 8 * cells.len();
            assert(ws[i].0 == q);
            assert(writes_block(ws, q));
        }
    }
    assert forall|q: IVec3| #[trigger] r.contains_key(q) implies r[q] == doubled(m)[q] by {
        let i = choose|i: int| 0 <= i < ws.len() && (#[trigger] ws[i]).0 == q;
        assert(r[ws[i].0] == ws[i].1);
        assert(half(q) == cells[i / 8]);
    }
    assert(r =~= doubled(m));
}

/// Halving a doubled grid gives back the original: every block of
/// `doubled(m)` is one color, the color of its source cell.
pub proof fn law_halve_undoes_double(m: Map<IVec3, Color8>, cells: Seq<IVec3>, ws: Seq<(IVec3, Color8)>)
    requires
        doubles_fit(m),
        forall|p: IVec3| #[trigger] m.contains_key(p) ==> p.y >= 0,
        halve_ok(cells, doubled(m), ws),
    ensures
        apply_writes(Map::empty(), ws) == m,
{
    let d = doubled(m);
    assert forall|i: int| 0 <= i < ws.len() implies #[trigger] m.contains_key(ws[i].0) && ws[i].1 == m[ws[i].0] by {
        let b = ws[i].0;
        assert(writes_block(ws, b));
        assert(block_occupied(d, b));
        let q = choose|q: IVec3| d.contains_key(q) && half(q) == b;
        assert(m.contains_key(b));
        assert(is_majority(d, b, ws[i].1));
        lemma_count_in_witness(d, b, ws[i].1, 8);
        let t = choose|t: int| 0 <= t < 8 && map_get(d, sub_cell(b, t)) == Some(ws[i].1);
        lemma_sub_cell_half(b, t);
    }
    assert forall|i: int| 0 <= i < ws.len() implies (#[trigger] ws[i]).0.y >= 0 by {
        assert(m.contains_key(ws[i].0));
    }
    lemma_apply_distinct(ws);
    let r = apply_writes(Map::empty(), ws);
    assert forall|p: IVec3| #[trigger] r.contains_key(p) <==> m.contains_key(p) by {
        if m.contains_key(p) {
            let t = 0int;
            lemma_sub_cell_half(p, t);
            assert(d.contains_key(sub_cell(p, t)));
            assert(block_occupied(d, p));
            assert(writes_block(ws, p));
        }
        if r.contains_key(p) {
            let i = choose|i: int| 0 <= i < ws.len() && (#[trigger] ws[i]).0 == p;
            assert(m.contains_key(ws[i].0));
        }
    }
    assert forall|p: IVec3| #[trigger] r.contains_key(p) implies r[p] == m[p] by {
        let i = choose|i: int| 0 <= i < ws.len() && (#[trigger] ws[i]).0 == p;
        assert(r[ws[i].0] == ws[i].1);
        assert(m.contains_key(ws[i].0) && ws[i].1 == m[ws[i].0]);
    }
    assert(r =~= m);
}

} // verus!
