//! Undo / redo of edit strokes.
//!
//! A stroke is the set of cell changes made between `begin` and `end`; each
//! touched cell is recorded once, with its color before the stroke and its
//! latest color. Undo writes the "before" colors back, redo the "after" ones.

use crate::geom::{opt_color_eq, Color8, IVec3};
use crate::grid::{changes_marked, lemma_no_change_marked, lemma_write_marks, grid_set, map_get, VoxelGrid};
use std::collections::HashSet;
use vstd::prelude::*;

verus! {

broadcast use vstd::std_specs::hash::group_hash_axioms;

/// Strokes kept on the undo stack; the oldest is dropped beyond this.
pub const MAX_UNDO: usize = 200;

/// One cell's change within a stroke.
#[derive(Clone, Copy, Debug)]
pub struct CellDelta {
    pub pos: IVec3,
    pub before: Option<Color8>,
    pub after: Option<Color8>,
}

/// The cell changes of one edit gesture. `touched` holds the packed
/// coordinates of the cells in `deltas`, for a constant-time duplicate check.
pub struct Stroke {
    pub deltas: Vec<CellDelta>,
    pub touched: HashSet<i128>,
}

/// Undo and redo stacks, plus the stroke being recorded, if any.
pub struct History {
    pub undo: Vec<Stroke>,
    pub redo: Vec<Stroke>,
    pub current: Option<Stroke>,
}

/// Packed hash key of a cell coordinate.
pub open spec fn pos_key(p: IVec3) -> i128 {
    (p.x * 0x1_0000_0000_0000_0000 + p.y * 0x1_0000_0000 + p.z) as i128
}

pub(crate) proof fn lemma_pos_key(a: IVec3, b: IVec3)
    ensures
        pos_key(a) as int == a.x * 0x1_0000_0000_0000_0000 + a.y * 0x1_0000_0000 + a.z,
        pos_key(a) == pos_key(b) ==> a == b,
{
    let ka = a.x * 0x1_0000_0000_0000_0000 + a.y * 0x1_0000_0000 + a.z;
    let kb = b.x * 0x1_0000_0000_0000_0000 + b.y * 0x1_0000_0000 + b.z;
    assert(i128::MIN <= ka <= i128::MAX);
    assert(i128::MIN <= kb <= i128::MAX);
    if ka == kb {
        let ra = a.y * 0x1_0000_0000 + a.z;
        let rb = b.y * 0x1_0000_0000 + b.z;
        assert(a.x == b.x) by (nonlinear_arith)
            requires
                a.x * 0x1_0000_0000_0000_0000 + ra == b.x * 0x1_0000_0000_0000_0000 + rb,
                -0x8000_0000_8000_0000 <= ra <= 0x7FFF_FFFF_7FFF_FFFF,
                -0x8000_0000_8000_0000 <= rb <= 0x7FFF_FFFF_7FFF_FFFF,
        ;
        assert(a.y == b.y) by (nonlinear_arith)
            requires
                a.y * 0x1_0000_0000 + a.z == b.y * 0x1_0000_0000 + b.z,
                -0x8000_0000 <= a.z < 0x8000_0000,
                -0x8000_0000 <= b.z < 0x8000_0000,
        ;
    }
}

pub(crate) fn pos_key_exec(p: IVec3) -> (k: i128)
    ensures
        k == pos_key(p),
{
    proof {
        lemma_pos_key(p, p);
    }
    (p.x as i128) * 0x1_0000_0000_0000_0000i128 + (p.y as i128) * 0x1_0000_0000i128 + (p.z as i128)
}

/// No cell appears twice among the deltas.
pub open spec fn distinct_cells(ds: Seq<CellDelta>) -> bool {
    forall|i: int, j: int| 0 <= i < ds.len() && 0 <= j < ds.len() && i != j ==> ds[i].pos != ds[j].pos
}

/// The cells the deltas change.
pub open spec fn delta_cells(ds: Seq<CellDelta>) -> Set<IVec3> {
    Set::new(|p: IVec3| exists|i: int| 0 <= i < ds.len() && ds[i].pos == p)
}

/// Applying each delta's `after` in order.
pub open spec fn apply_after(m: Map<IVec3, Color8>, ds: Seq<CellDelta>) -> Map<IVec3, Color8>
    decreases ds.len(),
{
    if ds.len() == 0 {
        m
    } else {
        grid_set(apply_after(m, ds.drop_last()), ds.last().pos, ds.last().after)
    }
}

/// Applying each delta's `before`, last delta first.
pub open spec fn apply_before_rev(m: Map<IVec3, Color8>, ds: Seq<CellDelta>) -> Map<IVec3, Color8>
    decreases ds.len(),
{
    if ds.len() == 0 {
        m
    } else {
        grid_set(apply_before_rev(m, ds.drop_first()), ds[0].pos, ds[0].before)
    }
}

/// `ds` takes the cells `pre` to `post`: each cell appears once, `before`
/// is its color in `pre`, and applying every `after` to `pre` gives `post`.
pub open spec fn stroke_takes(pre: Map<IVec3, Color8>, post: Map<IVec3, Color8>, ds: Seq<CellDelta>) -> bool {
    &&& distinct_cells(ds)
    &&& forall|i: int| 0 <= i < ds.len() && ds[i].pos.y >= 0 ==> #[trigger] ds[i].before == map_get(pre, ds[i].pos)
    &&& post == apply_after(pre, ds)
}

impl Stroke {
    pub open spec fn wf(&self) -> bool {
        &&& distinct_cells(self.deltas@)
        &&& forall|k: i128| #[trigger] self.touched@.contains(k) <==> exists|i: int|
            0 <= i < self.deltas@.len() && pos_key(self.deltas@[i].pos) == k
    }

    pub fn new() -> (s: Stroke)
        ensures
            s.wf(),
            s.deltas@ == Seq::<CellDelta>::empty(),
    {
        Stroke { deltas: Vec::new(), touched: HashSet::new() }
    }
}

// ---------------------------------------------------------------------------
// Pointwise reading of the stroke maps
// ---------------------------------------------------------------------------

proof fn lemma_apply_after_at(m: Map<IVec3, Color8>, ds: Seq<CellDelta>, q: IVec3)
    requires
        distinct_cells(ds),
    ensures
        (forall|i: int| 0 <= i < ds.len() ==> ds[i].pos != q) ==> map_get(apply_after(m, ds), q)
            == map_get(m, q),
        forall|i: int|
            0 <= i < ds.len() && ds[i].pos == q ==> map_get(apply_after(m, ds), q) == if q.y >= 0 {
                ds[i].after
            } else {
                map_get(m, q)
            },
    decreases ds.len(),
{
    if ds.len() > 0 {
        let s = ds.drop_last();
        assert(distinct_cells(s));
        lemma_apply_after_at(m, s, q);
        assert forall|i: int| 0 <= i < ds.len() && ds[i].pos == q implies map_get(apply_after(m, ds), q)
            == if q.y >= 0 { ds[i].after } else { map_get(m, q) } by {
            if i < ds.len() - 1 {
                assert(ds[i] == s[i]);
                assert(ds.last().pos != q);
            }
        }
        if forall|i: int| 0 <= i < ds.len() ==> ds[i].pos != q {
            assert(ds.last().pos != q);
            assert forall|i: int| 0 <= i < s.len() implies s[i].pos != q by {
                assert(s[i] == ds[i]);
            }
        }
    }
}

proof fn lemma_apply_before_rev_at(m: Map<IVec3, Color8>, ds: Seq<CellDelta>, q: IVec3)
    requires
        distinct_cells(ds),
    ensures
        (forall|i: int| 0 <= i < ds.len() ==> ds[i].pos != q) ==> map_get(apply_before_rev(m, ds), q)
            == map_get(m, q),
        forall|i: int|
            0 <= i < ds.len() && ds[i].pos == q ==> map_get(apply_before_rev(m, ds), q) == if q.y
                >= 0 {
                ds[i].before
            } else {
                map_get(m, q)
            },
    decreases ds.len(),
{
    if ds.len() > 0 {
        let s = ds.drop_first();
        assert forall|i: int, j: int|
            0 <= i < s.len() && 0 <= j < s.len() && i != j implies s[i].pos != s[j].pos by {
            assert(s[i] == ds[i + 1]);
            assert(s[j] == ds[j + 1]);
        }
        lemma_apply_before_rev_at(m, s, q);
        assert forall|i: int| 0 <= i < ds.len() && ds[i].pos == q implies map_get(
            apply_before_rev(m, ds),
            q,
        ) == if q.y >= 0 { ds[i].before } else { map_get(m, q) } by {
            if i > 0 {
                assert(ds[i] == s[i - 1]);
                assert(ds[0].pos != q);
            }
        }
        if forall|i: int| 0 <= i < ds.len() ==> ds[i].pos != q {
            assert(ds[0].pos != q);
            assert forall|i: int| 0 <= i < s.len() implies s[i].pos != q by {
                assert(s[i] == ds[i + 1]);
            }
        }
    }
}

// ---------------------------------------------------------------------------
// Laws
// ---------------------------------------------------------------------------

/// Undoing a stroke restores the cells to what they were before it.
pub proof fn law_undo_restores(pre: Map<IVec3, Color8>, post: Map<IVec3, Color8>, ds: Seq<CellDelta>)
    requires
        stroke_takes(pre, post, ds),
    ensures
        apply_before_rev(post, ds) == pre,
{
    let a = apply_before_rev(post, ds);
    assert forall|q: IVec3| #[trigger] a.contains_key(q) == pre.contains_key(q) && (a.contains_key(q)
        ==> a[q] == pre[q]) by {
        lemma_apply_before_rev_at(post, ds, q);
        lemma_apply_after_at(pre, ds, q);
        if exists|i: int| 0 <= i < ds.len() && ds[i].pos == q {
            let i = choose|i: int| 0 <= i < ds.len() && ds[i].pos == q;
            assert(ds[i].pos == q);
        }
        assert(map_get(a, q) == map_get(pre, q));
    }
    assert(a =~= pre);
}

/// A freshly begun stroke takes the cells to themselves.
pub proof fn law_empty_stroke(m: Map<IVec3, Color8>)
    ensures
        stroke_takes(m, m, Seq::<CellDelta>::empty()),
{
}

/// Redoing an undone stroke brings back the cells the stroke left.
pub proof fn law_redo_after_undo(pre: Map<IVec3, Color8>, post: Map<IVec3, Color8>, ds: Seq<CellDelta>)
    requires
        stroke_takes(pre, post, ds),
    ensures
        apply_after(apply_before_rev(post, ds), ds) == post,
{
    law_undo_restores(pre, post, ds);
}


/// Two maps that agree at every cell are equal.
pub(crate) proof fn lemma_map_eq_pointwise(a: Map<IVec3, Color8>, b: Map<IVec3, Color8>)
    requires
        forall|q: IVec3| #[trigger] map_get(a, q) == map_get(b, q),
    ensures
        a == b,
{
    assert forall|q: IVec3| #[trigger] a.contains_key(q) == b.contains_key(q) && (a.contains_key(q)
        ==> a[q] == b[q]) by {
        assert(map_get(a, q) == map_get(b, q));
    }
    assert(a =~= b);
}

/// Writing the color a cell already has changes nothing.
proof fn lemma_grid_set_same(m: Map<IVec3, Color8>, p: IVec3, c: Option<Color8>)
    requires
        p.y >= 0 ==> c == map_get(m, p),
    ensures
        grid_set(m, p, c) == m,
{
    if p.y >= 0 {
        assert(grid_set(m, p, c) =~= m);
    }
}

// ---------------------------------------------------------------------------
// History
// ---------------------------------------------------------------------------

impl History {
    /// Every stroke is well formed.
    pub open spec fn wf(&self) -> bool {
        &&& forall|i: int| 0 <= i < self.undo.len() ==> (#[trigger] self.undo@[i]).wf()
        &&& forall|i: int| 0 <= i < self.redo.len() ==> (#[trigger] self.redo@[i]).wf()
        &&& self.current matches Some(st) ==> st.wf()
    }

    pub fn new() -> (h: History)
        ensures
            h.wf(),
            h.undo@.len() == 0,
            h.redo@.len() == 0,
            h.current is None,
    {
        History { undo: Vec::new(), redo: Vec::new(), current: None }
    }

    /// Starts recording a stroke (discarding one still open).
    pub fn begin(&mut self)
        requires
            old(self).wf(),
        ensures
            final(self).wf(),
            final(self).undo@ == old(self).undo@,
            final(self).redo@ == old(self).redo@,
            final(self).current matches Some(st) && st.deltas@.len() == 0,
    {
        self.current = Some(Stroke::new());
    }

    /// Writes `after` at `pos` as part of the open stroke. Without an open
    /// stroke nothing happens. The first write to a cell records its prior
    /// color (a write that changes nothing is not recorded); later writes to
    /// the same cell only update the recorded final color.
    pub fn record(&mut self, grid: &mut VoxelGrid, pos: IVec3, after: Option<Color8>)
        requires
            old(self).wf(),
            old(grid).wf(),
            old(grid)@.dom().len() < u32::MAX,
        ensures
            final(self).wf(),
            final(grid).wf(),
            final(self).undo@ == old(self).undo@,
            final(self).redo@ == old(self).redo@,
            old(grid).dirty_view().subset_of(final(grid).dirty_view()),
            changes_marked(old(grid)@, final(grid)@, final(grid).dirty_view()),
            old(self).current is None ==> final(grid)@ == old(grid)@ && final(self).current is None,
            old(self).current is Some ==> final(grid)@ == grid_set(old(grid)@, pos, after),
            old(self).current matches Some(st) ==> (final(self).current matches Some(nst) && {
                let ds = st.deltas@;
                let nds = nst.deltas@;
                let before = map_get(old(grid)@, pos);
                &&& (exists|i: int| 0 <= i < ds.len() && ds[i].pos == pos) ==> (exists|i: int|
                    0 <= i < ds.len() && ds[i].pos == pos && nds == ds.update(
                        i,
                        CellDelta { after: after, ..ds[i] },
                    ))
                &&& (forall|i: int| 0 <= i < ds.len() ==> ds[i].pos != pos) ==> (if before
                    == after {
                    nds == ds
                } else {
                    nds == ds.push(CellDelta { pos, before, after })
                })
                &&& forall|pre: Map<IVec3, Color8>| #[trigger]
                    stroke_takes(pre, old(grid)@, ds) ==> stroke_takes(pre, final(grid)@, nds)
            }),
    {
        proof {
            lemma_no_change_marked(grid@, grid.dirty_view());
        }
        let ghost gd = grid.dirty_view();
        let ghost gm = grid@;
        let mut stroke = match self.current.take() {
            Some(st) => st,
            None => {
                return;
            },
        };
        let ghost ds = stroke.deltas@;
        let ghost g0 = grid@;
        let ghost t0 = stroke.touched@;
        proof {
            assert(stroke.wf());
        }
        let key = pos_key_exec(pos);
        if stroke.touched.contains(&key) {
            grid.set(pos, after);
            proof {
                lemma_write_marks(gm, gm, gd, pos, after, grid.dirty_view());
            }
            let ghost wi = choose|i: int| 0 <= i < ds.len() && pos_key(ds[i].pos) == key;
            proof {
                lemma_pos_key(ds[wi].pos, pos);
            }
            let mut i: usize = 0;
            while i < stroke.deltas.len()
                invariant_except_break
                    stroke.deltas@ == ds,
                    i <= wi,
                invariant
                    stroke.touched@ == t0,
                    0 <= wi < ds.len(),
                    ds[wi].pos == pos,
                    distinct_cells(ds),
                ensures
                    stroke.deltas@ == ds.update(wi, CellDelta { after: after, ..ds[wi] }),
                decreases stroke.deltas.len() - i,
            {
                if stroke.deltas[i].pos == pos {
                    let d = stroke.deltas[i];
                    stroke.deltas.set(i, CellDelta { after: after, ..d });
                    break;
                }
                i = i + 1;
            }
            let ghost nds = stroke.deltas@;
            proof {
                assert(nds == ds.update(wi, CellDelta { after: after, ..ds[wi] }));
                assert forall|k: i128| #[trigger] stroke.touched@.contains(k) <==> exists|j: int|
                    0 <= j < nds.len() && pos_key(nds[j].pos) == k by {
                    assert(stroke.touched@ == t0);
                    assert(t0.contains(k) <==> exists|j: int|
                        0 <= j < ds.len() && pos_key(ds[j].pos) == k);
                    if exists|j: int| 0 <= j < ds.len() && pos_key(ds[j].pos) == k {
                        let j = choose|j: int| 0 <= j < ds.len() && pos_key(ds[j].pos) == k;
                        assert(nds[j].pos == ds[j].pos);
                    }
                    if exists|j: int| 0 <= j < nds.len() && pos_key(nds[j].pos) == k {
                        let j = choose|j: int| 0 <= j < nds.len() && pos_key(nds[j].pos) == k;
                        assert(nds[j].pos == ds[j].pos);
                    }
                }
                assert forall|pre: Map<IVec3, Color8>| #[trigger]
                    stroke_takes(pre, g0, ds) implies stroke_takes(pre, grid@, nds) by {
                    assert forall|q: IVec3| #[trigger] map_get(apply_after(pre, nds), q) == map_get(
                        grid@,
                        q,
                    ) by {
                        lemma_apply_after_at(pre, nds, q);
                        lemma_apply_after_at(pre, ds, q);
                        if q != pos {
                            if exists|j: int| 0 <= j < ds.len() && ds[j].pos == q {
                                let j = choose|j: int| 0 <= j < ds.len() && ds[j].pos == q;
                                assert(nds[j].pos == q);
                            }
                        } else {
                            assert(nds[wi].pos == pos);
                        }
                    }
                    lemma_map_eq_pointwise(apply_after(pre, nds), grid@);
                    assert forall|j: int| 0 <= j < nds.len() && nds[j].pos.y >= 0 implies #[trigger]
                        nds[j].before == map_get(pre, nds[j].pos) by {
                        assert(ds[j].before == map_get(pre, ds[j].pos));
                    }
                }
            }
            self.current = Some(stroke);
            return;
        }
        let before = grid.get(pos);
        proof {
            assert forall|i: int| 0 <= i < ds.len() implies ds[i].pos != pos by {
                if ds[i].pos == pos {
                    assert(stroke.touched@.contains(pos_key(ds[i].pos)));
                }
            }
        }
        if opt_color_eq(&before, &after) {
            proof {
                lemma_grid_set_same(grid@, pos, after);
            }
            self.current = Some(stroke);
            return;
        }
        grid.set(pos, after);
        proof {
            lemma_write_marks(gm, gm, gd, pos, after, grid.dirty_view());
        }
        stroke.touched.insert(key);
        stroke.deltas.push(CellDelta { pos, before, after });
        proof {
            let nds = stroke.deltas@;
            let d = CellDelta { pos, before, after };
            assert(nds == ds.push(d));
            assert(nds.drop_last() =~= ds);
            assert forall|k: i128| #[trigger] stroke.touched@.contains(k) <==> exists|j: int|
                0 <= j < nds.len() && pos_key(nds[j].pos) == k by {
                if exists|j: int| 0 <= j < ds.len() && pos_key(ds[j].pos) == k {
                    let j = choose|j: int| 0 <= j < ds.len() && pos_key(ds[j].pos) == k;
                    assert(nds[j] == ds[j]);
                }
                if k == key {
                    assert(nds[nds.len() - 1] == d);
                }
                if exists|j: int| 0 <= j < nds.len() && pos_key(nds[j].pos) == k {
                    let j = choose|j: int| 0 <= j < nds.len() && pos_key(nds[j].pos) == k;
                    if j < ds.len() {
                        assert(nds[j] == ds[j]);
                    }
                }
            }
            assert(distinct_cells(nds)) by {
                assert forall|i: int, j: int|
                    0 <= i < nds.len() && 0 <= j < nds.len() && i != j implies nds[i].pos
                    != nds[j].pos by {
                    if i < ds.len() && j < ds.len() {
                        assert(nds[i] == ds[i] && nds[j] == ds[j]);
                    } else if i < ds.len() {
                        assert(nds[i] == ds[i]);
                    } else if j < ds.len() {
                        assert(nds[j] == ds[j]);
                    }
                }
            }
            assert forall|pre: Map<IVec3, Color8>| #[trigger]
                stroke_takes(pre, g0, ds) implies stroke_takes(pre, grid@, nds) by {
                lemma_apply_after_at(pre, ds, pos);
                assert forall|j: int| 0 <= j < nds.len() && nds[j].pos.y >= 0 implies #[trigger]
                    nds[j].before == map_get(pre, nds[j].pos) by {
                    if j < ds.len() {
                        assert(nds[j] == ds[j]);
                        assert(ds[j].before == map_get(pre, ds[j].pos));
                    }
                }
            }
        }
        self.current = Some(stroke);
    }

    /// Closes the open stroke. A stroke that changed nothing is discarded;
    /// otherwise it goes on the undo stack (dropping the oldest beyond
    /// `MAX_UNDO`) and the redo stack is cleared.
    pub fn end(&mut self)
        requires
            old(self).wf(),
        ensures
            final(self).wf(),
            final(self).current is None,
            old(self).current is Some && old(self).current->0.deltas@.len() > 0 ==> {
                let st = old(self).current->0;
                &&& final(self).redo@.len() == 0
                &&& if old(self).undo@.len() + 1 > MAX_UNDO {
                    final(self).undo@ == old(self).undo@.push(st).drop_first()
                } else {
                    final(self).undo@ == old(self).undo@.push(st)
                }
            },
            !(old(self).current matches Some(st) && st.deltas@.len() > 0) ==> {
                &&& final(self).undo@ == old(self).undo@
                &&& final(self).redo@ == old(self).redo@
            },
    {
        let stroke = match self.current.take() {
            Some(st) => st,
            None => {
                return;
            },
        };
        if stroke.deltas.len() == 0 {
            return;
        }
        let ghost u0 = self.undo@;
        self.undo.push(stroke);
        if self.undo.len() > MAX_UNDO {
            self.undo.remove(0);
            proof {
                assert forall|i: int| 0 <= i < self.undo.len() implies (#[trigger] self.undo@[i]).wf() by {
                    assert(self.undo@[i] == u0.push(stroke)[i + 1]);
                }
            }
        }
        self.redo.clear();
    }

    /// Abandons the open stroke: its writes are reverted and it is dropped,
    /// leaving the undo and redo stacks as they were.
    pub fn abort(&mut self, grid: &mut VoxelGrid)
        requires
            old(self).wf(),
            old(grid).wf(),
            old(self).current matches Some(st) ==> old(grid)@.dom().len() + st.deltas@.len() < u32::MAX,
        ensures
            final(self).wf(),
            final(grid).wf(),
            final(self).current is None,
            final(self).undo@ == old(self).undo@,
            final(self).redo@ == old(self).redo@,
            old(grid).dirty_view().subset_of(final(grid).dirty_view()),
            changes_marked(old(grid)@, final(grid)@, final(grid).dirty_view()),
            old(self).current matches Some(st) ==> final(grid)@ == apply_before_rev(old(grid)@, st.deltas@),
            old(self).current is None ==> final(grid)@ == old(grid)@,
    {
        proof {
            lemma_no_change_marked(grid@, grid.dirty_view());
        }
        let stroke = match self.current.take() {
            Some(st) => st,
            None => {
                return;
            },
        };
        let ghost ds = stroke.deltas@;
        let ghost g0 = grid@;
        let ghost d0 = grid.dirty_view();
        let mut i: usize = stroke.deltas.len();
        while i > 0
            invariant
                grid.wf(),
                d0.subset_of(grid.dirty_view()),
                changes_marked(g0, grid@, grid.dirty_view()),
                stroke.deltas@ == ds,
                i <= ds.len(),
                grid@ == apply_before_rev(g0, ds.subrange(i as int, ds.len() as int)),
                grid@.dom().len() <= g0.dom().len() + (ds.len() - i),
                g0.dom().len() + ds.len() < u32::MAX,
            decreases i,
        {
            let ghost before_step = grid@;
            proof {
                grid.lemma_finite();
            }
            let d = stroke.deltas[i - 1];
            let ghost db = grid.dirty_view();
            grid.set(d.pos, d.before);
            proof {
                lemma_write_marks(g0, before_step, db, d.pos, d.before, grid.dirty_view());
                let t = ds.subrange(i - 1, ds.len() as int);
                assert(t.drop_first() =~= ds.subrange(i as int, ds.len() as int));
                assert(t[0] == d);
                lemma_grid_set_len(before_step, d.pos, d.before);
            }
            i = i - 1;
        }
        proof {
            assert(ds.subrange(0, ds.len() as int) =~= ds);
        }
    }

    /// Reverts the most recent stroke and moves it to the redo stack.
    pub fn undo(&mut self, grid: &mut VoxelGrid)
        requires
            old(self).wf(),
            old(grid).wf(),
            old(self).undo@.len() > 0 ==> old(grid)@.dom().len() + old(self).undo@.last().deltas@.len()
                < u32::MAX,
        ensures
            final(self).wf(),
            final(grid).wf(),
            final(self).current == old(self).current,
            old(grid).dirty_view().subset_of(final(grid).dirty_view()),
            changes_marked(old(grid)@, final(grid)@, final(grid).dirty_view()),
            old(self).undo@.len() == 0 ==> final(grid)@ == old(grid)@ && final(self).undo@ == old(
                self,
            ).undo@ && final(self).redo@ == old(self).redo@,
            old(self).undo@.len() > 0 ==> {
                let st = old(self).undo@.last();
                &&& final(grid)@ == apply_before_rev(old(grid)@, st.deltas@)
                &&& final(self).undo@ == old(self).undo@.drop_last()
                &&& final(self).redo@ == old(self).redo@.push(st)
            },
    {
        proof {
            lemma_no_change_marked(grid@, grid.dirty_view());
        }
        let stroke = match self.undo.pop() {
            Some(st) => st,
            None => {
                return;
            },
        };
        let ghost ds = stroke.deltas@;
        let ghost g0 = grid@;
        let ghost d0 = grid.dirty_view();
        let mut i: usize = stroke.deltas.len();
        while i > 0
            invariant
                grid.wf(),
                d0.subset_of(grid.dirty_view()),
                changes_marked(g0, grid@, grid.dirty_view()),
                stroke.deltas@ == ds,
                i <= ds.len(),
                grid@ == apply_before_rev(g0, ds.subrange(i as int, ds.len() as int)),
                grid@.dom().len() <= g0.dom().len() + (ds.len() - i),
                g0.dom().len() + ds.len() < u32::MAX,
            decreases i,
        {
            let ghost before_step = grid@;
            proof {
                grid.lemma_finite();
            }
            let d = stroke.deltas[i - 1];
            let ghost db = grid.dirty_view();
            grid.set(d.pos, d.before);
            proof {
                lemma_write_marks(g0, before_step, db, d.pos, d.before, grid.dirty_view());
                let t = ds.subrange(i - 1, ds.len() as int);
                assert(t.drop_first() =~= ds.subrange(i as int, ds.len() as int));
                assert(t[0] == d);
                lemma_grid_set_len(before_step, d.pos, d.before);
            }
            i = i - 1;
        }
        proof {
            assert(ds.subrange(0, ds.len() as int) =~= ds);
        }
        self.redo.push(stroke);
    }

    /// Re-applies the most recently undone stroke and moves it back to the
    /// undo stack.
    pub fn redo(&mut self, grid: &mut VoxelGrid)
        requires
            old(self).wf(),
            old(grid).wf(),
            old(self).redo@.len() > 0 ==> old(grid)@.dom().len() + old(self).redo@.last().deltas@.len()
                < u32::MAX,
        ensures
            final(self).wf(),
            final(grid).wf(),
            final(self).current == old(self).current,
            old(grid).dirty_view().subset_of(final(grid).dirty_view()),
            changes_marked(old(grid)@, final(grid)@, final(grid).dirty_view()),
            old(self).redo@.len() == 0 ==> final(grid)@ == old(grid)@ && final(self).undo@ == old(
                self,
            ).undo@ && final(self).redo@ == old(self).redo@,
            old(self).redo@.len() > 0 ==> {
                let st = old(self).redo@.last();
                &&& final(grid)@ == apply_after(old(grid)@, st.deltas@)
                &&& final(self).redo@ == old(self).redo@.drop_last()
                &&& final(self).undo@ == old(self).undo@.push(st)
            },
    {
        proof {
            lemma_no_change_marked(grid@, grid.dirty_view());
        }
        let stroke = match self.redo.pop() {
            Some(st) => st,
            None => {
                return;
            },
        };
        let ghost ds = stroke.deltas@;
        let ghost g0 = grid@;
        let ghost d0 = grid.dirty_view();
        let mut i: usize = 0;
        while i < stroke.deltas.len()
            invariant
                grid.wf(),
                d0.subset_of(grid.dirty_view()),
                changes_marked(g0, grid@, grid.dirty_view()),
                stroke.deltas@ == ds,
                i <= ds.len(),
                grid@ == apply_after(g0, ds.take(i as int)),
                grid@.dom().len() <= g0.dom().len() + i,
                g0.dom().len() + ds.len() < u32::MAX,
            decreases ds.len() - i,
        {
            let ghost before_step = grid@;
            proof {
                grid.lemma_finite();
            }
            let d = stroke.deltas[i];
            let ghost db = grid.dirty_view();
            grid.set(d.pos, d.after);
            proof {
                lemma_write_marks(g0, before_step, db, d.pos, d.after, grid.dirty_view());
                assert(ds.take(i + 1).drop_last() =~= ds.take(i as int));
                lemma_grid_set_len(before_step, d.pos, d.after);
            }
            i = i + 1;
        }
        proof {
            assert(ds.take(ds.len() as int) =~= ds);
        }
        self.undo.push(stroke);
    }
}

/// The undo stack after pushing `st`: the oldest stroke is dropped once the
/// stack would exceed `MAX_UNDO`.
pub open spec fn pushed_undo(u: Seq<Stroke>, st: Stroke) -> Seq<Stroke> {
    if u.len() + 1 > MAX_UNDO {
        u.push(st).drop_first()
    } else {
        u.push(st)
    }
}

/// `h` holds an edit of the cells from `pre` to `post` as one closed stroke
/// on top of the stacks `undo0`/`redo0`: either nothing was recorded (the
/// stacks are as they were and the cells unchanged), or the stroke that
/// takes `pre` to `post` is the new top of the undo stack and the redo stack
/// is empty.
pub open spec fn committed(
    undo0: Seq<Stroke>,
    redo0: Seq<Stroke>,
    h: History,
    pre: Map<IVec3, Color8>,
    post: Map<IVec3, Color8>,
) -> bool {
    &&& h.current is None
    &&& {
        ||| h.undo@ == undo0 && h.redo@ == redo0 && post == pre
        ||| {
            &&& h.undo@.len() > 0
            &&& h.redo@.len() == 0
            &&& h.undo@ == pushed_undo(undo0, h.undo@.last())
            &&& stroke_takes(pre, post, h.undo@.last().deltas@)
        }
    }
}

/// The undo stack never holds more than `MAX_UNDO` strokes: pushing onto a
/// stack within the cap stays within it, dropping the oldest stroke.
pub proof fn law_undo_capped(u: Seq<Stroke>, st: Stroke)
    requires
        u.len() <= MAX_UNDO,
    ensures
        pushed_undo(u, st).len() <= MAX_UNDO,
        pushed_undo(u, st).last() == st,
        u.len() == MAX_UNDO ==> pushed_undo(u, st) == u.drop_first().push(st),
{
    if u.len() == MAX_UNDO {
        assert(u.push(st).drop_first() =~= u.drop_first().push(st));
    }
}

/// An edit committed as one stroke is reverted by undoing that stroke.
pub proof fn law_committed_edit_undoes(
    undo0: Seq<Stroke>,
    redo0: Seq<Stroke>,
    h: History,
    pre: Map<IVec3, Color8>,
    post: Map<IVec3, Color8>,
)
    requires
        committed(undo0, redo0, h, pre, post),
        pre != post,
    ensures
        h.undo@.len() > 0,
        apply_before_rev(post, h.undo@.last().deltas@) == pre,
{
    law_undo_restores(pre, post, h.undo@.last().deltas@);
}

impl History {
    /// Closes the open stroke, which takes `pre` to `post`.
    pub(crate) fn commit(&mut self, Ghost(pre): Ghost<Map<IVec3, Color8>>, Ghost(post): Ghost<Map<IVec3, Color8>>)
        requires
            old(self).wf(),
            old(self).current matches Some(st) && stroke_takes(pre, post, st.deltas@),
        ensures
            final(self).wf(),
            committed(old(self).undo@, old(self).redo@, *final(self), pre, post),
    {
        let ghost st = self.current->0;
        let ghost u0 = self.undo@;
        self.end();
        proof {
            if st.deltas@.len() == 0 {
                assert(post == apply_after(pre, st.deltas@));
            } else {
                assert(self.undo@.last() == st);
            }
        }
    }
}

impl Default for History {
    fn default() -> (h: History)
        ensures
            h.wf(),
            h.undo@.len() == 0,
            h.redo@.len() == 0,
            h.current is None,
    {
        History::new()
    }
}

/// A single write grows the cell count by at most one.
pub(crate) proof fn lemma_grid_set_len(m: Map<IVec3, Color8>, p: IVec3, c: Option<Color8>)
    requires
        m.dom().finite(),
    ensures
        grid_set(m, p, c).dom().finite(),
        grid_set(m, p, c).dom().len() <= m.dom().len() + 1,
{
    if p.y >= 0 {
        match c {
            Some(v) => {
                assert(m.insert(p, v).dom() =~= m.dom().insert(p));
            },
            None => {
                assert(m.remove(p).dom() =~= m.dom().remove(p));
            },
        }
    }
}

} // verus!
