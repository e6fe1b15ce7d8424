//! Box and per-cell selections, and the edits applied to them: clearing,
//! recoloring, moving, and picking a connected same-color region.

use crate::geom::{color_eq, Color8, IVec3};
use crate::grid::{changes_marked, grid_set, is_bounding_box, le3, lemma_marks_chain, lemma_no_change_marked, map_get, VoxelGrid};
use crate::history::{
    committed, lemma_grid_set_len, lemma_map_eq_pointwise, lemma_pos_key, pos_key, pos_key_exec,
    stroke_takes, History,
};
use std::collections::HashSet;
use crate::shapes::{other_axes, spec_other_axes};
use crate::tools::{abs_int, dedup, position, sample_color, spec_sample_color};
use vstd::prelude::*;

verus! {

broadcast use vstd::std_specs::hash::group_hash_axioms;

/// An axis-aligned box of cells, both corners inclusive.
#[derive(Clone, Copy, Debug, PartialEq, Eq, Structural)]
pub struct SelectionAabb {
    pub min: IVec3,
    pub max: IVec3,
}

/// Scan order of a box: by `z`, then `y`, then `x`.
pub open spec fn zyx_before(a: IVec3, b: IVec3) -> bool {
    ||| a.z < b.z
    ||| a.z == b.z && a.y < b.y
    ||| a.z == b.z && a.y == b.y && a.x < b.x
}

/// `s` lists the cells of `cells` once each, in scan order.
pub open spec fn scan_of(s: Seq<IVec3>, cells: Set<IVec3>) -> bool {
    &&& forall|i: int| 0 <= i < s.len() ==> cells.contains(#[trigger] s[i])
    &&& forall|q: IVec3| #[trigger] cells.contains(q) ==> s.contains(q)
    &&& forall|i: int, j: int| 0 <= i < j < s.len() ==> zyx_before(s[i], s[j])
}

impl SelectionAabb {
    pub open spec fn spec_contains(self, p: IVec3) -> bool {
        le3(self.min, p) && le3(p, self.max)
    }

    /// The cells of the box.
    pub open spec fn cells(self) -> Set<IVec3> {
        Set::new(|p: IVec3| self.spec_contains(p))
    }

    /// Width, height and depth in cells.
    pub open spec fn spec_extents(self) -> (int, int, int) {
        (self.max.x - self.min.x + 1, self.max.y - self.min.y + 1, self.max.z - self.min.z + 1)
    }

    /// The box spanned by two opposite corners, in either order.
    pub fn from_corners(a: IVec3, b: IVec3) -> (r: Self)
        ensures
            r.min == a.spec_min(b),
            r.max == a.spec_max(b),
    {
        SelectionAabb { min: a.min(b), max: a.max(b) }
    }

    pub fn contains(&self, p: IVec3) -> (r: bool)
        ensures
            r == self.spec_contains(p),
    {
        p.x >= self.min.x && p.x <= self.max.x && p.y >= self.min.y && p.y <= self.max.y && p.z
            >= self.min.z && p.z <= self.max.z
    }

    /// `max - min + 1` on each axis (the caller keeps both steps in `i32`
    /// range).
    pub fn extents(&self) -> (r: IVec3)
        requires
            i32::MIN <= self.max.x - self.min.x < i32::MAX,
            i32::MIN <= self.max.y - self.min.y < i32::MAX,
            i32::MIN <= self.max.z - self.min.z < i32::MAX,
        ensures
            r.x == self.spec_extents().0,
            r.y == self.spec_extents().1,
            r.z == self.spec_extents().2,
    {
        IVec3::new(
            self.max.x - self.min.x + 1,
            self.max.y - self.min.y + 1,
            self.max.z - self.min.z + 1,
        )
    }

    /// Number of cells in a box with `min <= max`.
    pub fn cell_count(&self) -> (r: usize)
        requires
            le3(self.min, self.max),
            self.spec_extents().0 * self.spec_extents().1 * self.spec_extents().2 <= usize::MAX,
        ensures
            r == self.spec_extents().0 * self.spec_extents().1 * self.spec_extents().2,
    {
        let ex = (self.max.x as i64 - self.min.x as i64 + 1) as u64;
        let ey = (self.max.y as i64 - self.min.y as i64 + 1) as u64;
        let ez = (self.max.z as i64 - self.min.z as i64 + 1) as u64;
        assert(ex * ey <= ex * ey * ez) by (nonlinear_arith)
            requires
                ez >= 1,
                ex >= 1,
                ey >= 1,
        ;
        let xy = ex * ey;
        (xy * ez) as usize
    }

    /// Every cell of the box, in scan order (`z`, then `y`, then `x`).
    pub fn iter_cells(&self) -> (r: Vec<IVec3>)
        ensures
            scan_of(r@, self.cells()),
    {
        let mn = self.min;
        let mx = self.max;
        let mut out: Vec<IVec3> = Vec::new();
        let ghost mut at: Map<IVec3, int> = Map::empty();
        let mut z: i64 = mn.z as i64;
        while z <= mx.z as i64
            invariant
                mn == self.min,
                mx == self.max,
                mn.z <= z <= mx.z + 1 || (z == mn.z && mx.z < mn.z),
                forall|i: int| 0 <= i < out.len() ==> self.spec_contains(#[trigger] out@[i]),
                forall|i: int| 0 <= i < out.len() ==> (#[trigger] out@[i]).z < z,
                forall|i: int, j: int| 0 <= i < j < out.len() ==> zyx_before(out@[i], out@[j]),
                forall|q: IVec3|
                    #![trigger at.contains_key(q)]
                    at.contains_key(q) ==> 0 <= at[q] < out.len() && out@[at[q]] == q,
                forall|q: IVec3|
                    #![trigger self.spec_contains(q)]
                    self.spec_contains(q) && q.z < z ==> at.contains_key(q),
            decreases mx.z + 1 - z,
        {
            let mut y: i64 = mn.y as i64;
            while y <= mx.y as i64
                invariant
                    mn == self.min,
                    mx == self.max,
                    mn.z <= z <= mx.z,
                    mn.y <= y <= mx.y + 1 || (y == mn.y && mx.y < mn.y),
                    forall|i: int| 0 <= i < out.len() ==> self.spec_contains(#[trigger] out@[i]),
                    forall|i: int|
                        0 <= i < out.len() ==> (#[trigger] out@[i]).z < z || (out@[i].z == z
                            && out@[i].y < y),
                    forall|i: int, j: int| 0 <= i < j < out.len() ==> zyx_before(out@[i], out@[j]),
                    forall|q: IVec3|
                        #![trigger at.contains_key(q)]
                        at.contains_key(q) ==> 0 <= at[q] < out.len() && out@[at[q]] == q,
                    forall|q: IVec3|
                        #![trigger self.spec_contains(q)]
                        self.spec_contains(q) && (q.z < z || (q.z == z && q.y < y))
                            ==> at.contains_key(q),
                decreases mx.y + 1 - y,
            {
                let mut x: i64 = mn.x as i64;
                while x <= mx.x as i64
                    invariant
                        mn == self.min,
                        mx == self.max,
                        mn.z <= z <= mx.z,
                        mn.y <= y <= mx.y,
                        mn.x <= x <= mx.x + 1 || (x == mn.x && mx.x < mn.x),
                        forall|i: int| 0 <= i < out.len() ==> self.spec_contains(#[trigger] out@[i]),
                        forall|i: int|
                            0 <= i < out.len() ==> (#[trigger] out@[i]).z < z || (out@[i].z == z
                                && out@[i].y < y) || (out@[i].z == z && out@[i].y == y
                                && out@[i].x < x),
                        forall|i: int, j: int|
                            0 <= i < j < out.len() ==> zyx_before(out@[i], out@[j]),
                        forall|q: IVec3|
                            #![trigger at.contains_key(q)]
                            at.contains_key(q) ==> 0 <= at[q] < out.len() && out@[at[q]] == q,
                        forall|q: IVec3|
                            #![trigger self.spec_contains(q)]
                            self.spec_contains(q) && (q.z < z || (q.z == z && q.y < y) || (q.z == z
                                && q.y == y && q.x < x)) ==> at.contains_key(q),
                    decreases mx.x + 1 - x,
                {
                    let cell = IVec3::new(x as i32, y as i32, z as i32);
                    out.push(cell);
                    proof {
                        at = at.insert(cell, out.len() - 1);
                    }
                    x = x + 1;
                }
                y = y + 1;
            }
            z = z + 1;
        }
        proof {
            assert forall|q: IVec3| #[trigger] self.cells().contains(q) implies out@.contains(q) by {
                assert(self.spec_contains(q));
                assert(out@[at[q]] == q);
            }
        }
        out
    }

    /// Occupied cells inside the box.
    pub fn voxel_count(&self, grid: &VoxelGrid) -> (r: usize)
        requires
            grid.wf(),
        ensures
            r == grid@.dom().filter(|p: IVec3| self.spec_contains(p)).len(),
    {
        let cells = self.iter_cells();
        proof {
            lemma_scan_lists(cells@, self.cells());
        }
        let r = count_occupied(grid, &cells, Ghost(self.cells()));
        assert(grid@.dom().filter(|p: IVec3| self.cells().contains(p)) =~= grid@.dom().filter(
            |p: IVec3| self.spec_contains(p),
        ));
        r
    }
}

/// `s` lists the cells of `cells`, each once.
pub open spec fn lists(s: Seq<IVec3>, cells: Set<IVec3>) -> bool {
    &&& s.no_duplicates()
    &&& forall|q: IVec3| #[trigger] cells.contains(q) <==> s.contains(q)
}

pub(crate) proof fn lemma_scan_lists(s: Seq<IVec3>, cells: Set<IVec3>)
    requires
        scan_of(s, cells),
    ensures
        lists(s, cells),
{
    assert forall|i: int, j: int| 0 <= i < s.len() && 0 <= j < s.len() && i != j implies s[i] != s[j] by {
        if i < j {
            assert(zyx_before(s[i], s[j]));
        } else {
            assert(zyx_before(s[j], s[i]));
        }
    }
    assert forall|q: IVec3| #[trigger] cells.contains(q) <==> s.contains(q) by {
        if s.contains(q) {
            let i = choose|i: int| 0 <= i < s.len() && s[i] == q;
            assert(cells.contains(s[i]));
        }
    }
}

/// How many of `cells` (the cells of `within`, each listed once) are
/// occupied.
fn count_occupied(grid: &VoxelGrid, cells: &Vec<IVec3>, Ghost(within): Ghost<Set<IVec3>>) -> (r: usize)
    requires
        grid.wf(),
        lists(cells@, within),
    ensures
        r == grid@.dom().filter(|p: IVec3| within.contains(p)).len(),
{
    let ghost target = grid@.dom().filter(|p: IVec3| within.contains(p));
    let ghost mut found: Set<IVec3> = Set::empty();
    let ghost mut at: Map<IVec3, int> = Map::empty();
    let mut n: usize = 0;
    let mut i: usize = 0;
    proof {
        grid.lemma_finite();
    }
    while i < cells.len()
        invariant
            grid.wf(),
            lists(cells@, within),
            target == grid@.dom().filter(|p: IVec3| within.contains(p)),
            target.finite(),
            i <= cells.len(),
            n <= i,
            found.finite(),
            n == found.len(),
            found.subset_of(target),
            forall|q: IVec3|
                #![trigger found.contains(q)]
                found.contains(q) ==> at.contains_key(q) && 0 <= at[q] < i && cells@[at[q]] == q,
            forall|j: int| 0 <= j < i && grid@.contains_key(#[trigger] cells@[j]) ==> found.contains(cells@[j]),
        decreases cells.len() - i,
    {
        let p = cells[i];
        if grid.in_bounds(p) && grid.get(p).is_some() {
            proof {
                if found.contains(p) {
                    let j = at[p];
                    assert(cells@[j] == cells@[i as int]);
                }
                assert(cells@.contains(cells@[i as int]));
                assert(within.contains(cells@[i as int]));
                assert(target.contains(p));
                vstd::set_lib::lemma_len_subset(found.insert(p), target);
                found = found.insert(p);
                at = at.insert(p, i as int);
            }
            n = n + 1;
        } else {
            proof {
                grid.lemma_finite();
                if grid@.contains_key(p) {
                    assert(map_get(grid@, p) is Some);
                }
            }
        }
        i = i + 1;
    }
    proof {
        assert forall|q: IVec3| #[trigger] target.contains(q) implies found.contains(q) by {
            assert(within.contains(q));
            assert(cells@.contains(q));
            let j = choose|j: int| 0 <= j < cells@.len() && cells@[j] == q;
            assert(grid@.contains_key(cells@[j]));
        }
        assert(found =~= target);
    }
    n
}

// ---------------------------------------------------------------------------
// The selection
// ---------------------------------------------------------------------------

/// The active selection: a box, and optionally a per-cell mask that narrows
/// it to chosen cells (a picked region). Without a mask the whole box is
/// selected.
#[derive(Default)]
pub struct Selection {
    pub aabb: Option<SelectionAabb>,
    pub cells: Option<Vec<IVec3>>,
}

/// Smallest box around `cells`, `None` when there are none.
pub fn aabb_of_cells(cells: &[IVec3]) -> (r: Option<SelectionAabb>)
    ensures
        r is None <==> cells@.len() == 0,
        r matches Some(a) ==> is_bounding_box(cells@.to_set(), a.min, a.max),
{
    if cells.len() == 0 {
        return None;
    }
    let mut mn = cells[0];
    let mut mx = cells[0];
    let mut i: usize = 1;
    while i < cells.len()
        invariant
            1 <= i <= cells@.len(),
            forall|j: int| 0 <= j < i ==> le3(mn, #[trigger] cells@[j]) && le3(cells@[j], mx),
            exists|j: int| 0 <= j < i && cells@[j].x == mn.x,
            exists|j: int| 0 <= j < i && cells@[j].y == mn.y,
            exists|j: int| 0 <= j < i && cells@[j].z == mn.z,
            exists|j: int| 0 <= j < i && cells@[j].x == mx.x,
            exists|j: int| 0 <= j < i && cells@[j].y == mx.y,
            exists|j: int| 0 <= j < i && cells@[j].z == mx.z,
        decreases cells@.len() - i,
    {
        let p = cells[i];
        mn = mn.min(p);
        mx = mx.max(p);
        i = i + 1;
    }
    let ghost s = cells@.to_set();
    proof {
        assert forall|p: IVec3| #[trigger] s.contains(p) implies le3(mn, p) && le3(p, mx) by {
            let j = choose|j: int| 0 <= j < cells@.len() && cells@[j] == p;
            assert(le3(mn, cells@[j]));
        }
        let j = choose|j: int| 0 <= j < cells@.len() && cells@[j].x == mn.x;
        assert(s.contains(cells@[j]));
        let j = choose|j: int| 0 <= j < cells@.len() && cells@[j].y == mn.y;
        assert(s.contains(cells@[j]));
        let j = choose|j: int| 0 <= j < cells@.len() && cells@[j].z == mn.z;
        assert(s.contains(cells@[j]));
        let j = choose|j: int| 0 <= j < cells@.len() && cells@[j].x == mx.x;
        assert(s.contains(cells@[j]));
        let j = choose|j: int| 0 <= j < cells@.len() && cells@[j].y == mx.y;
        assert(s.contains(cells@[j]));
        let j = choose|j: int| 0 <= j < cells@.len() && cells@[j].z == mx.z;
        assert(s.contains(cells@[j]));
    }
    Some(SelectionAabb { min: mn, max: mx })
}

/// `s` without repeats, first occurrences kept.
fn unique_cells(s: &Vec<IVec3>) -> (r: Vec<IVec3>)
    ensures
        r@.no_duplicates(),
        r@.to_set() == s@.to_set(),
{
    let mut out: Vec<IVec3> = Vec::new();
    let mut i: usize = 0;
    while i < s.len()
        invariant
            i <= s@.len(),
            out@.no_duplicates(),
            out@.to_set() == s@.take(i as int).to_set(),
        decreases s@.len() - i,
    {
        let p = s[i];
        let mut j: usize = 0;
        let mut dup = false;
        while j < out.len()
            invariant_except_break
                !dup,
            invariant
                j <= out@.len(),
                !dup ==> forall|k: int| 0 <= k < j ==> out@[k] != p,
            ensures
                dup ==> out@.contains(p),
                !dup ==> forall|k: int| 0 <= k < out@.len() ==> out@[k] != p,
            decreases out@.len() - j,
        {
            if out[j] == p {
                dup = true;
                assert(out@[j as int] == p);
                break;
            }
            j = j + 1;
        }
        proof {
            assert(s@.take(i + 1) =~= s@.take(i as int).push(p));
            s@.take(i as int).lemma_push_to_set_commute(p);
        }
        if !dup {
            let ghost before = out@;
            out.push(p);
            proof {
                before.lemma_push_to_set_commute(p);
                assert(out@ == before.push(p));
            }
        } else {
            proof {
                assert(out@.to_set().insert(p) =~= out@.to_set());
            }
        }
        i = i + 1;
    }
    proof {
        assert(s@.take(s@.len() as int) =~= s@);
    }
    out
}

impl Selection {
    /// A mask never lists a cell twice.
    pub open spec fn wf(&self) -> bool {
        self.cells matches Some(v) ==> v@.no_duplicates()
    }

    /// The selected cells: the mask when there is one, else the box, else
    /// none.
    pub open spec fn selected(&self) -> Set<IVec3> {
        match self.cells {
            Some(v) => v@.to_set(),
            None => match self.aabb {
                Some(a) => a.cells(),
                None => Set::empty(),
            },
        }
    }

    pub fn clear(&mut self)
        ensures
            final(self).aabb is None,
            final(self).cells is None,
    {
        self.aabb = None;
        self.cells = None;
    }

    /// Selects the whole box.
    pub fn set_aabb(&mut self, aabb: SelectionAabb)
        ensures
            final(self).aabb == Some(aabb),
            final(self).cells is None,
    {
        self.aabb = Some(aabb);
        self.cells = None;
    }

    /// Selects exactly `cells` (repeats ignored), with their bounding box as
    /// the hull; an empty list selects nothing.
    pub fn set_cells(&mut self, cells: Vec<IVec3>)
        ensures
            final(self).wf(),
            cells@.len() == 0 ==> final(self).aabb is None && final(self).cells is None,
            cells@.len() > 0 ==> (final(self).cells matches Some(v) && v@.to_set() == cells@.to_set()),
            cells@.len() > 0 ==> (final(self).aabb matches Some(a) && is_bounding_box(
                cells@.to_set(),
                a.min,
                a.max,
            )),
    {
        self.aabb = aabb_of_cells(cells.as_slice());
        if cells.len() == 0 {
            self.cells = None;
        } else {
            self.cells = Some(unique_cells(&cells));
        }
    }

    /// Whether `p` is selected.
    pub fn contains(&self, p: IVec3) -> (r: bool)
        ensures
            r == self.selected().contains(p),
    {
        match &self.cells {
            Some(v) => {
                let mut i: usize = 0;
                while i < v.len()
                    invariant
                        self.selected() == v@.to_set(),
                        i <= v@.len(),
                        forall|k: int| 0 <= k < i ==> v@[k] != p,
                    decreases v@.len() - i,
                {
                    if v[i] == p {
                        proof {
                            assert(v@[i as int] == p);
                            assert(v@.contains(p));
                            assert(v@.to_set().contains(p));
                        }
                        return true;
                    }
                    i = i + 1;
                }
                false
            },
            None => match self.aabb {
                Some(a) => a.contains(p),
                None => false,
            },
        }
    }

    /// Occupied cells among the selected ones.
    pub fn voxel_count(&self, grid: &VoxelGrid) -> (r: usize)
        requires
            self.wf(),
            grid.wf(),
        ensures
            r == grid@.dom().filter(|p: IVec3| self.selected().contains(p)).len(),
    {
        match &self.cells {
            Some(v) => count_occupied(grid, v, Ghost(v@.to_set())),
            None => match self.aabb {
                Some(a) => {
                    let r = a.voxel_count(grid);
                    assert(grid@.dom().filter(|p: IVec3| self.selected().contains(p)) =~= grid@.dom().filter(
                        |p: IVec3| a.spec_contains(p),
                    ));
                    r
                },
                None => {
                    proof {
                        grid.lemma_finite();
                        assert(grid@.dom().filter(|p: IVec3| self.selected().contains(p)) =~= Set::<
                            IVec3,
                        >::empty());
                    }
                    0
                },
            },
        }
    }
}

// ---------------------------------------------------------------------------
// Clearing and recoloring
// ---------------------------------------------------------------------------

/// Clears every occupied cell of `cells`, as one stroke.
fn clear_listed(grid: &mut VoxelGrid, history: &mut History, cells: &Vec<IVec3>)
    requires
        old(grid).wf(),
        old(history).wf(),
        old(grid)@.dom().len() < u32::MAX,
    ensures
        final(grid).wf(),
        final(history).wf(),
        old(grid).dirty_view().subset_of(final(grid).dirty_view()),
        changes_marked(old(grid)@, final(grid)@, final(grid).dirty_view()),
        final(grid)@ == old(grid)@.remove_keys(cells@.to_set()),
        committed(old(history).undo@, old(history).redo@, *final(history), old(grid)@, final(grid)@),
{
    let ghost g0 = grid@;
    let ghost d0_marks = grid.dirty_view();
    proof {
        lemma_no_change_marked(g0, d0_marks);
    }
    let ghost u0 = history.undo@;
    let ghost r0 = history.redo@;
    history.begin();
    proof {
        grid.lemma_finite();
        assert(g0.remove_keys(cells@.take(0).to_set()) =~= g0);
    }
    let mut i: usize = 0;
    while i < cells.len()
        invariant
            d0_marks.subset_of(grid.dirty_view()),
            changes_marked(g0, grid@, grid.dirty_view()),
            grid.wf(),
            history.wf(),
            history.undo@ == u0,
            history.redo@ == r0,
            history.current matches Some(st) && stroke_takes(g0, grid@, st.deltas@),
            i <= cells@.len(),
            g0.dom().finite(),
            g0.dom().len() < u32::MAX,
            grid@ == g0.remove_keys(cells@.take(i as int).to_set()),
        decreases cells@.len() - i,
    {
        let p = cells[i];
        let ghost before = grid@;
        proof {
            assert(cells@.take(i + 1) =~= cells@.take(i as int).push(p));
            cells@.take(i as int).lemma_push_to_set_commute(p);
            assert(before.dom().subset_of(g0.dom()));
            vstd::set_lib::lemma_len_subset(before.dom(), g0.dom());
            grid.lemma_finite();
        }
        if grid.in_bounds(p) && grid.get(p).is_some() {
            let ghost mb_marks = grid@;
            let ghost db_marks = grid.dirty_view();
            history.record(grid, p, None);
            proof {
                lemma_marks_chain(g0, mb_marks, grid@, db_marks, grid.dirty_view());
            }
            proof {
                assert(grid@ =~= g0.remove_keys(cells@.take(i + 1).to_set()));
            }
        } else {
            proof {
                assert(!before.contains_key(p));
                assert(grid@ =~= g0.remove_keys(cells@.take(i + 1).to_set()));
            }
        }
        i = i + 1;
    }
    proof {
        assert(cells@.take(cells@.len() as int) =~= cells@);
    }
    history.commit(Ghost(g0), Ghost(grid@));
}

/// Clears every occupied cell of the box, as one stroke.
pub fn clear_aabb(grid: &mut VoxelGrid, history: &mut History, aabb: &SelectionAabb)
    requires
        old(grid).wf(),
        old(history).wf(),
        old(grid)@.dom().len() < u32::MAX,
    ensures
        final(grid).wf(),
        final(history).wf(),
        old(grid).dirty_view().subset_of(final(grid).dirty_view()),
        changes_marked(old(grid)@, final(grid)@, final(grid).dirty_view()),
        final(grid)@ == old(grid)@.remove_keys(aabb.cells()),
        committed(old(history).undo@, old(history).redo@, *final(history), old(grid)@, final(grid)@),
{
    let cells = aabb.iter_cells();
    proof {
        assert(cells@.to_set() =~= aabb.cells());
    }
    clear_listed(grid, history, &cells);
}

/// Clears every occupied selected cell (the mask's cells when there is a
/// mask, else the box's), as one stroke. With nothing selected nothing
/// happens.
pub fn clear_selection(grid: &mut VoxelGrid, history: &mut History, selection: &Selection)
    requires
        old(grid).wf(),
        old(history).wf(),
        old(grid)@.dom().len() < u32::MAX,
    ensures
        final(grid).wf(),
        final(history).wf(),
        old(grid).dirty_view().subset_of(final(grid).dirty_view()),
        changes_marked(old(grid)@, final(grid)@, final(grid).dirty_view()),
        final(grid)@ == old(grid)@.remove_keys(selection.selected()),
        selection.cells is None && selection.aabb is None ==> *final(history) == *old(history),
        selection.cells is Some || selection.aabb is Some ==> committed(
            old(history).undo@,
            old(history).redo@,
            *final(history),
            old(grid)@,
            final(grid)@,
        ),
{
    match &selection.cells {
        Some(v) => {
            clear_listed(grid, history, v);
            return ;
        },
        None => {},
    }
    match selection.aabb {
        Some(a) => clear_aabb(grid, history, &a),
        None => {
            proof {
                assert(grid@.remove_keys(Set::empty()) =~= grid@);
            }
        },
    }
}

/// Occupied cells of `cells` (in `m`), in order, mapped to their pool color.
pub open spec fn occupied_colors(cells: Seq<IVec3>, m: Map<IVec3, Color8>, pool: Seq<Color8>) -> Seq<Color8> {
    cells.filter(|p: IVec3| m.contains_key(p)).map_values(|p: IVec3| spec_sample_color(p, pool))
}

/// `m` with every occupied cell of `s` recolored from `pool`; empty cells
/// stay empty.
pub open spec fn recolored(m: Map<IVec3, Color8>, s: Set<IVec3>, pool: Seq<Color8>) -> Map<IVec3, Color8> {
    Map::new(
        |p: IVec3| m.contains_key(p),
        |p: IVec3| if s.contains(p) { spec_sample_color(p, pool) } else { m[p] },
    )
}

/// Recolors every occupied cell of `cells` from `pool`, as one stroke.
/// Returns the colors used, each once, in order of first use.
fn recolor_listed(grid: &mut VoxelGrid, history: &mut History, cells: &Vec<IVec3>, pool: &[Color8]) -> (used: Vec<Color8>)
    requires
        old(grid).wf(),
        old(history).wf(),
        old(grid)@.dom().len() < u32::MAX,
        pool@.len() > 0,
    ensures
        final(grid).wf(),
        final(history).wf(),
        old(grid).dirty_view().subset_of(final(grid).dirty_view()),
        changes_marked(old(grid)@, final(grid)@, final(grid).dirty_view()),
        final(grid)@ == recolored(old(grid)@, cells@.to_set(), pool@),
        used@ == dedup(occupied_colors(cells@, old(grid)@, pool@)),
        committed(old(history).undo@, old(history).redo@, *final(history), old(grid)@, final(grid)@),
{
    let ghost g0 = grid@;
    let ghost d0_marks = grid.dirty_view();
    proof {
        lemma_no_change_marked(g0, d0_marks);
    }
    let ghost u0 = history.undo@;
    let ghost r0 = history.redo@;
    let ghost occ = |p: IVec3| g0.contains_key(p);
    let ghost col = |p: IVec3| spec_sample_color(p, pool@);
    history.begin();
    let mut used: Vec<Color8> = Vec::new();
    proof {
        grid.lemma_finite();
        assert(recolored(g0, cells@.take(0).to_set(), pool@) =~= g0);
        assert(cells@.take(0).filter(occ) =~= Seq::<IVec3>::empty()) by {
            reveal(Seq::filter);
        }
        assert(cells@.take(0).filter(occ).map_values(col) =~= Seq::<Color8>::empty());
    }
    let mut i: usize = 0;
    while i < cells.len()
        invariant
            d0_marks.subset_of(grid.dirty_view()),
            changes_marked(g0, grid@, grid.dirty_view()),
            grid.wf(),
            history.wf(),
            history.undo@ == u0,
            history.redo@ == r0,
            history.current matches Some(st) && stroke_takes(g0, grid@, st.deltas@),
            i <= cells@.len(),
            pool@.len() > 0,
            g0.dom().finite(),
            g0.dom().len() < u32::MAX,
            occ == (|p: IVec3| g0.contains_key(p)),
            col == (|p: IVec3| spec_sample_color(p, pool@)),
            grid@ == recolored(g0, cells@.take(i as int).to_set(), pool@),
            used@ == dedup(cells@.take(i as int).filter(occ).map_values(col)),
        decreases cells@.len() - i,
    {
        let p = cells[i];
        let ghost before = grid@;
        let ghost f0 = cells@.take(i as int).filter(occ);
        proof {
            assert(cells@.take(i + 1) =~= cells@.take(i as int).push(p));
            assert(cells@.take(i + 1) =~= cells@.take(i as int).push(p));
            cells@.take(i as int).lemma_push_to_set_commute(p);
            cells@.take(i as int).lemma_filter_push(p, occ);
            assert(before.dom() =~= g0.dom());
            grid.lemma_finite();
        }
        if grid.in_bounds(p) && grid.get(p).is_some() {
            let c = sample_color(p, pool);
            let ghost mb_marks = grid@;
            let ghost db_marks = grid.dirty_view();
            history.record(grid, p, Some(c));
            proof {
                lemma_marks_chain(g0, mb_marks, grid@, db_marks, grid.dirty_view());
            }
            proof {
                assert(grid@ =~= recolored(g0, cells@.take(i + 1).to_set(), pool@));
                assert(f0.push(p).map_values(col) =~= f0.map_values(col).push(c));
                assert(f0.map_values(col).push(c).drop_last() =~= f0.map_values(col));
            }
            if position(&used, &c).is_none() {
                used.push(c);
            }
        } else {
            proof {
                assert(!before.contains_key(p));
                assert(grid@ =~= recolored(g0, cells@.take(i + 1).to_set(), pool@));
            }
        }
        i = i + 1;
    }
    proof {
        assert(cells@.take(cells@.len() as int) =~= cells@);
        assert(occupied_colors(cells@, g0, pool@) == cells@.filter(occ).map_values(col));
    }
    history.commit(Ghost(g0), Ghost(grid@));
    used
}

/// Recolors every occupied cell of the box from `pool`, as one stroke;
/// empty cells stay empty. Returns the colors used, each once, in order of
/// first use along the box's scan order.
pub fn recolor_aabb(grid: &mut VoxelGrid, history: &mut History, aabb: &SelectionAabb, pool: &[Color8]) -> (used: Vec<Color8>)
    requires
        old(grid).wf(),
        old(history).wf(),
        old(grid)@.dom().len() < u32::MAX,
        pool@.len() > 0,
    ensures
        final(grid).wf(),
        final(history).wf(),
        old(grid).dirty_view().subset_of(final(grid).dirty_view()),
        changes_marked(old(grid)@, final(grid)@, final(grid).dirty_view()),
        final(grid)@ == recolored(old(grid)@, aabb.cells(), pool@),
        exists|scan: Seq<IVec3>|
            scan_of(scan, aabb.cells()) && used@ == dedup(occupied_colors(scan, old(grid)@, pool@)),
        committed(old(history).undo@, old(history).redo@, *final(history), old(grid)@, final(grid)@),
{
    let cells = aabb.iter_cells();
    proof {
        assert(cells@.to_set() =~= aabb.cells());
    }
    recolor_listed(grid, history, &cells, pool)
}

/// Recolors every occupied selected cell from `pool`, as one stroke (the
/// mask's cells in mask order when there is a mask, else the box's). Returns
/// the colors used, each once, in order of first use; with nothing selected
/// nothing happens and no color is used.
pub fn recolor_selection(grid: &mut VoxelGrid, history: &mut History, selection: &Selection, pool: &[Color8]) -> (used: Vec<Color8>)
    requires
        old(grid).wf(),
        old(history).wf(),
        old(grid)@.dom().len() < u32::MAX,
        pool@.len() > 0,
    ensures
        final(grid).wf(),
        final(history).wf(),
        old(grid).dirty_view().subset_of(final(grid).dirty_view()),
        changes_marked(old(grid)@, final(grid)@, final(grid).dirty_view()),
        final(grid)@ == recolored(old(grid)@, selection.selected(), pool@),
        selection.cells matches Some(v) ==> used@ == dedup(occupied_colors(v@, old(grid)@, pool@)),
        selection.cells is None ==> (selection.aabb matches Some(a) ==> exists|scan: Seq<IVec3>|
            scan_of(scan, a.cells()) && used@ == dedup(occupied_colors(scan, old(grid)@, pool@))),
        selection.cells is None && selection.aabb is None ==> used@.len() == 0 && *final(history)
            == *old(history),
        selection.cells is Some || selection.aabb is Some ==> committed(
            old(history).undo@,
            old(history).redo@,
            *final(history),
            old(grid)@,
            final(grid)@,
        ),
{
    match &selection.cells {
        Some(v) => {
            return recolor_listed(grid, history, v, pool);
        },
        None => {},
    }
    match selection.aabb {
        Some(a) => recolor_aabb(grid, history, &a, pool),
        None => {
            proof {
                assert(recolored(grid@, Set::empty(), pool@) =~= grid@);
            }
            Vec::new()
        },
    }
}

// ---------------------------------------------------------------------------
// Moving
// ---------------------------------------------------------------------------

/// `q` is where some cell of `s` lands when moved by `delta`.
pub open spec fn lands(s: Set<IVec3>, delta: IVec3, q: IVec3) -> bool {
    exists|p: IVec3| s.contains(p) && p.spec_add(delta) == q
}

/// The cell of `s` that lands on `q`.
pub open spec fn lander(s: Set<IVec3>, delta: IVec3, q: IVec3) -> IVec3 {
    choose|p: IVec3| s.contains(p) && p.spec_add(delta) == q
}

/// `m` with its cells `s` moved by `delta`: each lands on its destination
/// (a landing below the floor is lost), the cells they leave are emptied,
/// and every other cell keeps its color.
pub open spec fn moved(m: Map<IVec3, Color8>, s: Set<IVec3>, delta: IVec3) -> Map<IVec3, Color8> {
    Map::new(
        |q: IVec3| (q.y >= 0 && lands(s, delta, q)) || (m.contains_key(q) && !s.contains(q)),
        |q: IVec3| if q.y >= 0 && lands(s, delta, q) { m[lander(s, delta, q)] } else { m[q] },
    )
}

/// Moving `s` by `delta` lands on no occupied cell of `m` outside `s`.
pub open spec fn move_is_clear(m: Map<IVec3, Color8>, s: Set<IVec3>, delta: IVec3) -> bool {
    forall|p: IVec3| #[trigger] s.contains(p) ==> s.contains(p.spec_add(delta)) || !m.contains_key(p.spec_add(delta))
}

/// Every selected cell, and the box, can be moved by `delta` in `i32`.
pub open spec fn move_fits(sel: &Selection, delta: IVec3) -> bool {
    &&& sel.aabb matches Some(a) ==> a.min.add_fits(delta) && a.max.add_fits(delta)
    &&& sel.cells matches Some(v) ==> forall|i: int| 0 <= i < v@.len() ==> (#[trigger] v@[i]).add_fits(delta)
}

/// The box moved by `delta`.
pub open spec fn shifted_box(a: SelectionAabb, delta: IVec3) -> SelectionAabb {
    SelectionAabb { min: a.min.spec_add(delta), max: a.max.spec_add(delta) }
}

pub(crate) proof fn lemma_add_injective(p: IVec3, q: IVec3, d: IVec3)
    requires
        p.add_fits(d),
        q.add_fits(d),
        p.spec_add(d) == q.spec_add(d),
    ensures
        p == q,
{
}

/// Positions of `occ`.
pub open spec fn positions(occ: Seq<(IVec3, Color8)>) -> Seq<IVec3> {
    occ.map_values(|e: (IVec3, Color8)| e.0)
}

/// The occupied cells of `src` with their colors, in `src` order.
pub(crate) fn gather_occupied(grid: &VoxelGrid, src: &Vec<IVec3>) -> (r: Vec<(IVec3, Color8)>)
    requires
        grid.wf(),
    ensures
        forall|k: int| 0 <= k < r@.len() ==> grid@.contains_key((#[trigger] r@[k]).0) && r@[k].1 == grid@[r@[k].0],
        forall|k: int| 0 <= k < r@.len() ==> src@.contains((#[trigger] r@[k]).0),
        forall|p: IVec3| #[trigger] src@.contains(p) && grid@.contains_key(p) ==> positions(r@).contains(p),
        src@.no_duplicates() ==> positions(r@).no_duplicates(),
{
    let mut out: Vec<(IVec3, Color8)> = Vec::new();
    let ghost mut idx: Seq<int> = Seq::empty();
    let mut i: usize = 0;
    while i < src.len()
        invariant
            grid.wf(),
            i <= src@.len(),
            idx.len() == out@.len(),
            forall|k: int| 0 <= k < out@.len() ==> grid@.contains_key((#[trigger] out@[k]).0) && out@[k].1 == grid@[out@[k].0],
            forall|k: int| 0 <= k < out@.len() ==> 0 <= #[trigger] idx[k] < i && src@[idx[k]] == out@[k].0,
            forall|k1: int, k2: int| 0 <= k1 < k2 < out@.len() ==> idx[k1] < idx[k2],
            forall|j: int| 0 <= j < i && grid@.contains_key(#[trigger] src@[j]) ==> positions(out@).contains(src@[j]),
        decreases src@.len() - i,
    {
        let p = src[i];
        match grid.get(p) {
            Some(c) => {
                let ghost before = out@;
                out.push((p, c));
                proof {
                    idx = idx.push(i as int);
                    assert forall|j: int| 0 <= j < i + 1 && grid@.contains_key(#[trigger] src@[j]) implies positions(out@).contains(src@[j]) by {
                        if j < i {
                            let k = choose|k: int| 0 <= k < before.len() && positions(before)[k] == src@[j];
                            assert(positions(out@)[k] == src@[j]);
                        } else {
                            assert(positions(out@)[out@.len() - 1] == p);
                        }
                    }
                }
            },
            None => {
                proof {
                    assert forall|j: int| 0 <= j < i + 1 && grid@.contains_key(#[trigger] src@[j]) implies positions(out@).contains(src@[j]) by {
                        if j == i {
                            assert(map_get(grid@, p) is Some);
                        }
                    }
                }
            },
        }
        i = i + 1;
    }
    proof {
        assert forall|p: IVec3| #[trigger] src@.contains(p) && grid@.contains_key(p) implies positions(out@).contains(p) by {
            let j = choose|j: int| 0 <= j < src@.len() && src@[j] == p;
            assert(grid@.contains_key(src@[j]));
        }
        assert forall|k: int| 0 <= k < out@.len() implies src@.contains((#[trigger] out@[k]).0) by {
            assert(src@[idx[k]] == out@[k].0);
        }
        if src@.no_duplicates() {
            assert forall|k1: int, k2: int| 0 <= k1 < positions(out@).len() && 0 <= k2 < positions(out@).len() && k1 != k2 implies positions(out@)[k1] != positions(out@)[k2] by {
                if k1 < k2 {
                    assert(idx[k1] < idx[k2]);
                } else {
                    assert(idx[k2] < idx[k1]);
                }
                assert(src@[idx[k1]] == out@[k1].0);
                assert(src@[idx[k2]] == out@[k2].0);
            }
        }
    }
    out
}

/// Cells of `v` moved by `delta`, in order.
pub(crate) fn shift_cells(v: &Vec<IVec3>, delta: IVec3) -> (r: Vec<IVec3>)
    requires
        forall|i: int| 0 <= i < v@.len() ==> (#[trigger] v@[i]).add_fits(delta),
    ensures
        r@ == v@.map_values(|p: IVec3| p.spec_add(delta)),
        v@.no_duplicates() ==> r@.no_duplicates(),
{
    let mut out: Vec<IVec3> = Vec::new();
    let mut i: usize = 0;
    while i < v.len()
        invariant
            i <= v@.len(),
            forall|k: int| 0 <= k < v@.len() ==> (#[trigger] v@[k]).add_fits(delta),
            out@ == v@.take(i as int).map_values(|p: IVec3| p.spec_add(delta)),
        decreases v@.len() - i,
    {
        let p = v[i].add(delta);
        out.push(p);
        proof {
            assert(out@ =~= v@.take(i + 1).map_values(|p: IVec3| p.spec_add(delta)));
        }
        i = i + 1;
    }
    proof {
        assert(v@.take(v@.len() as int) =~= v@);
        if v@.no_duplicates() {
            assert forall|a: int, b: int| 0 <= a < out@.len() && 0 <= b < out@.len() && a != b implies out@[a] != out@[b] by {
                if out@[a] == out@[b] {
                    lemma_add_injective(v@[a], v@[b], delta);
                }
            }
        }
    }
    out
}

/// Whether moving the cells of `occ` by `delta` lands on no occupied cell
/// outside them.
pub(crate) fn move_is_clear_exec(grid: &VoxelGrid, occ: &Vec<(IVec3, Color8)>, delta: IVec3) -> (r: bool)
    requires
        grid.wf(),
        forall|k: int| 0 <= k < occ@.len() ==> (#[trigger] occ@[k]).0.add_fits(delta),
    ensures
        r == move_is_clear(grid@, positions(occ@).to_set(), delta),
{
    let ghost s = positions(occ@).to_set();
    let mut keys: HashSet<i128> = HashSet::new();
    let mut i: usize = 0;
    while i < occ.len()
        invariant
            i <= occ@.len(),
            forall|k: i128| #[trigger] keys@.contains(k) <==> exists|j: int| 0 <= j < i && pos_key(occ@[j].0) == k,
        decreases occ@.len() - i,
    {
        let k = pos_key_exec(occ[i].0);
        keys.insert(k);
        proof {
            assert forall|kk: i128| #[trigger] keys@.contains(kk) <==> exists|j: int| 0 <= j < i + 1 && pos_key(occ@[j].0) == kk by {
                if kk == k {
                    assert(pos_key(occ@[i as int].0) == kk);
                }
            }
        }
        i = i + 1;
    }
    let mut j: usize = 0;
    while j < occ.len()
        invariant
            grid.wf(),
            j <= occ@.len(),
            s == positions(occ@).to_set(),
            forall|k: int| 0 <= k < occ@.len() ==> (#[trigger] occ@[k]).0.add_fits(delta),
            forall|k: i128| #[trigger] keys@.contains(k) <==> exists|jj: int| 0 <= jj < occ@.len() && pos_key(occ@[jj].0) == k,
            forall|k: int| 0 <= k < j ==> s.contains((#[trigger] occ@[k]).0.spec_add(delta)) || !grid@.contains_key(occ@[k].0.spec_add(delta)),
        decreases occ@.len() - j,
    {
        let dst = occ[j].0.add(delta);
        let key = pos_key_exec(dst);
        let inside = keys.contains(&key);
        proof {
            if inside {
                let jj = choose|jj: int| 0 <= jj < occ@.len() && pos_key(occ@[jj].0) == key;
                lemma_pos_key(occ@[jj].0, dst);
                assert(positions(occ@)[jj] == dst);
                assert(s.contains(dst));
            } else {
                if s.contains(dst) {
                    let jj = choose|jj: int| 0 <= jj < positions(occ@).len() && positions(occ@)[jj] == dst;
                    assert(pos_key(occ@[jj].0) == key);
                }
            }
        }
        if !inside && grid.get(dst).is_some() {
            proof {
                assert(positions(occ@)[j as int] == occ@[j as int].0);
                assert(s.contains(occ@[j as int].0));
                assert(map_get(grid@, dst) is Some);
                assert(!s.contains(dst));
            }
            return false;
        }
        proof {
            if !inside {
                grid.lemma_finite();
                if grid@.contains_key(dst) {
                    assert(map_get(grid@, dst) is Some);
                }
            }
        }
        j = j + 1;
    }
    proof {
        assert forall|p: IVec3| #[trigger] s.contains(p) implies s.contains(p.spec_add(delta)) || !grid@.contains_key(p.spec_add(delta)) by {
            let k = choose|k: int| 0 <= k < positions(occ@).len() && positions(occ@)[k] == p;
            assert(occ@[k].0 == p);
        }
    }
    true
}

/// `m` with `(p, c)` of `occ` written at `p + delta`, in order.
pub open spec fn write_moved(m: Map<IVec3, Color8>, occ: Seq<(IVec3, Color8)>, delta: IVec3) -> Map<IVec3, Color8>
    decreases occ.len(),
{
    if occ.len() == 0 {
        m
    } else {
        grid_set(write_moved(m, occ.drop_last(), delta), occ.last().0.spec_add(delta), Some(occ.last().1))
    }
}

pub(crate) proof fn lemma_write_moved_at(m: Map<IVec3, Color8>, occ: Seq<(IVec3, Color8)>, delta: IVec3, q: IVec3)
    requires
        forall|a: int, b: int| 0 <= a < occ.len() && 0 <= b < occ.len() && a != b ==> occ[a].0.spec_add(delta) != occ[b].0.spec_add(delta),
    ensures
        (forall|k: int| 0 <= k < occ.len() ==> occ[k].0.spec_add(delta) != q) ==> map_get(write_moved(m, occ, delta), q) == map_get(m, q),
        forall|k: int| 0 <= k < occ.len() && occ[k].0.spec_add(delta) == q ==> map_get(write_moved(m, occ, delta), q) == if q.y >= 0 {
            Some(occ[k].1)
        } else {
            map_get(m, q)
        },
    decreases occ.len(),
{
    if occ.len() > 0 {
        let s = occ.drop_last();
        lemma_write_moved_at(m, s, delta, q);
        assert forall|k: int| 0 <= k < occ.len() && occ[k].0.spec_add(delta) == q implies map_get(write_moved(m, occ, delta), q) == if q.y >= 0 {
            Some(occ[k].1)
        } else {
            map_get(m, q)
        } by {
            if k < occ.len() - 1 {
                assert(occ[k] == s[k]);
                assert forall|kk: int| 0 <= kk < s.len() implies s[kk].0.spec_add(delta) != q || kk == k by {
                    assert(s[kk] == occ[kk]);
                }
            } else {
                assert forall|kk: int| 0 <= kk < s.len() implies s[kk].0.spec_add(delta) != q by {
                    assert(s[kk] == occ[kk]);
                }
            }
        }
        if forall|k: int| 0 <= k < occ.len() ==> occ[k].0.spec_add(delta) != q {
            assert forall|kk: int| 0 <= kk < s.len() implies s[kk].0.spec_add(delta) != q by {
                assert(s[kk] == occ[kk]);
            }
        }
    }
}

/// Inside the open stroke, which took the cells `pre` to where they are
/// now (`pre` itself), clears the cells of `occ` and writes each one's color
/// `delta` away: the cells become `moved(pre, s, delta)`.
pub(crate) fn write_move(
    grid: &mut VoxelGrid,
    history: &mut History,
    occ: &Vec<(IVec3, Color8)>,
    delta: IVec3,
    Ghost(pre): Ghost<Map<IVec3, Color8>>,
    Ghost(s): Ghost<Set<IVec3>>,
)
    requires
        old(grid).wf(),
        old(history).wf(),
        old(grid)@ == pre,
        old(history).current matches Some(st) && stroke_takes(pre, old(grid)@, st.deltas@),
        positions(occ@).no_duplicates(),
        positions(occ@).to_set() == s,
        forall|k: int| 0 <= k < occ@.len() ==> pre.contains_key((#[trigger] occ@[k]).0) && occ@[k].1 == pre[occ@[k].0],
        forall|k: int| 0 <= k < occ@.len() ==> (#[trigger] occ@[k]).0.add_fits(delta),
        forall|q: IVec3| #[trigger] pre.contains_key(q) ==> q.y >= 0,
        pre.dom().len() < u32::MAX,
    ensures
        final(grid).wf(),
        final(history).wf(),
        final(history).undo@ == old(history).undo@,
        final(history).redo@ == old(history).redo@,
        final(history).current matches Some(st) && stroke_takes(pre, final(grid)@, st.deltas@),
        final(history).current matches Some(st) && st.deltas@.len() <= old(history).current->0.deltas@.len() + 2 * occ@.len(),
        final(grid)@ == moved(pre, s, delta),
        old(grid).dirty_view().subset_of(final(grid).dirty_view()),
        changes_marked(old(grid)@, final(grid)@, final(grid).dirty_view()),
{
    let ghost d0_marks = grid.dirty_view();
    let ghost u0 = history.undo@;
    let ghost r0 = history.redo@;
    let ghost ps = positions(occ@);
    let ghost n_ds = history.current->0.deltas@.len();
    proof {
        lemma_no_change_marked(pre, d0_marks);
        grid.lemma_finite();
        ps.unique_seq_to_set();
        assert forall|p: IVec3| s.contains(p) implies pre.dom().contains(p) by {
            let k = choose|k: int| 0 <= k < ps.len() && ps[k] == p;
            assert(occ@[k].0 == p);
        }
        assert(s.subset_of(pre.dom()));
        assert forall|k: int| 0 <= k < occ@.len() implies #[trigger] s.contains(occ@[k].0) by {
            assert(ps[k] == occ@[k].0);
            assert(ps.contains(ps[k]));
        }
    }
    let mut i: usize = 0;
    proof {
        assert(pre.remove_keys(ps.take(0).to_set()) =~= pre);
    }
    while i < occ.len()
        invariant
            history.current matches Some(st) && st.deltas@.len() <= n_ds + i,
            d0_marks.subset_of(grid.dirty_view()),
            changes_marked(pre, grid@, grid.dirty_view()),
            grid.wf(),
            history.wf(),
            history.undo@ == u0,
            history.redo@ == r0,
            history.current matches Some(st) && stroke_takes(pre, grid@, st.deltas@),
            i <= occ@.len(),
            ps == positions(occ@),
            pre.dom().finite(),
            pre.dom().len() < u32::MAX,
            forall|k: int| 0 <= k < occ@.len() ==> pre.contains_key((#[trigger] occ@[k]).0),
            forall|q: IVec3| #[trigger] pre.contains_key(q) ==> q.y >= 0,
            grid@ == pre.remove_keys(ps.take(i as int).to_set()),
        decreases occ@.len() - i,
    {
        let p = occ[i].0;
        let ghost before = grid@;
        proof {
            assert(ps[i as int] == p);
            assert(ps.take(i + 1) =~= ps.take(i as int).push(p));
            ps.take(i as int).lemma_push_to_set_commute(p);
            assert(before.dom().subset_of(pre.dom()));
            vstd::set_lib::lemma_len_subset(before.dom(), pre.dom());
        }
        let ghost mb_marks = grid@;
        let ghost db_marks = grid.dirty_view();
        history.record(grid, p, None);
        proof {
            lemma_marks_chain(pre, mb_marks, grid@, db_marks, grid.dirty_view());
        }
        proof {
            assert(grid@ =~= pre.remove_keys(ps.take(i + 1).to_set()));
        }
        i = i + 1;
    }
    let ghost cleared = grid@;
    proof {
        grid.lemma_finite();
        assert(ps.take(occ@.len() as int) =~= ps);
        pre.lemma_remove_keys_len(s);
        assert(s.subset_of(pre.dom()));
        assert(cleared.dom().len() == pre.dom().len() - occ@.len());
        assert(write_moved(cleared, occ@.take(0), delta) == cleared);
    }
    let mut j: usize = 0;
    while j < occ.len()
        invariant
            history.current matches Some(st) && st.deltas@.len() <= n_ds + occ@.len() + j,
            d0_marks.subset_of(grid.dirty_view()),
            changes_marked(pre, grid@, grid.dirty_view()),
            grid.wf(),
            history.wf(),
            history.undo@ == u0,
            history.redo@ == r0,
            history.current matches Some(st) && stroke_takes(pre, grid@, st.deltas@),
            j <= occ@.len(),
            forall|k: int| 0 <= k < occ@.len() ==> (#[trigger] occ@[k]).0.add_fits(delta),
            cleared.dom().finite(),
            cleared.dom().len() + occ@.len() < u32::MAX,
            grid@.dom().len() <= cleared.dom().len() + j,
            grid@ == write_moved(cleared, occ@.take(j as int), delta),
        decreases occ@.len() - j,
    {
        let (p, c) = occ[j];
        let dst = p.add(delta);
        let ghost before = grid@;
        proof {
            grid.lemma_finite();
            assert(occ@.take(j + 1).drop_last() =~= occ@.take(j as int));
        }
        let ghost mb_marks = grid@;
        let ghost db_marks = grid.dirty_view();
        history.record(grid, dst, Some(c));
        proof {
            lemma_marks_chain(pre, mb_marks, grid@, db_marks, grid.dirty_view());
        }
        proof {
            lemma_grid_set_len(before, dst, Some(c));
        }
        j = j + 1;
    }
    proof {
        assert(occ@.take(occ@.len() as int) =~= occ@);
        assert forall|a1: int, b1: int| 0 <= a1 < occ@.len() && 0 <= b1 < occ@.len() && a1 != b1 implies occ@[a1].0.spec_add(delta) != occ@[b1].0.spec_add(delta) by {
            assert(ps[a1] == occ@[a1].0 && ps[b1] == occ@[b1].0);
            if occ@[a1].0.spec_add(delta) == occ@[b1].0.spec_add(delta) {
                lemma_add_injective(occ@[a1].0, occ@[b1].0, delta);
            }
        }
        let post = grid@;
        let want = moved(pre, s, delta);
        assert forall|q: IVec3| #[trigger] map_get(post, q) == map_get(want, q) by {
            lemma_write_moved_at(cleared, occ@, delta, q);
            if exists|k: int| 0 <= k < occ@.len() && occ@[k].0.spec_add(delta) == q {
                let k = choose|k: int| 0 <= k < occ@.len() && occ@[k].0.spec_add(delta) == q;
                assert(s.contains(occ@[k].0));
                assert(lands(s, delta, q));
                let l = lander(s, delta, q);
                assert(s.contains(l) && l.spec_add(delta) == q);
                lemma_add_injective(l, occ@[k].0, delta);
            } else {
                if lands(s, delta, q) {
                    let l = choose|l: IVec3| s.contains(l) && l.spec_add(delta) == q;
                    assert(ps.contains(l));
                    let k = choose|k: int| 0 <= k < ps.len() && ps[k] == l;
                    assert(occ@[k].0 == l);
                }
            }
        }
        lemma_map_eq_pointwise(post, want);
    }
}

/// Moves the occupied selected cells by `delta` as one stroke, and the
/// selection (box and mask) with them. Refused (returning `false`, nothing
/// changed) for a zero `delta`, without a box, when the box would go below
/// the floor, or when a cell would land on an occupied cell that is not
/// itself moving. With no occupied cell selected, only the selection moves.
pub fn move_selection(grid: &mut VoxelGrid, history: &mut History, selection: &mut Selection, delta: IVec3) -> (r: bool)
    requires
        old(grid).wf(),
        old(history).wf(),
        old(selection).wf(),
        old(grid)@.dom().len() < u32::MAX,
        delta != (IVec3 { x: 0, y: 0, z: 0 }) && old(selection).aabb is Some ==> move_fits(old(selection), delta),
    ensures
        final(grid).wf(),
        final(history).wf(),
        old(grid).dirty_view().subset_of(final(grid).dirty_view()),
        changes_marked(old(grid)@, final(grid)@, final(grid).dirty_view()),
        final(selection).wf(),
        ({
            let pre = old(grid)@;
            let s = old(selection).selected().intersect(pre.dom());
            &&& r == (delta != (IVec3 { x: 0, y: 0, z: 0 }) && old(selection).aabb is Some
                && old(selection).aabb->0.min.y + delta.y >= 0 && move_is_clear(pre, s, delta))
            &&& r ==> final(grid)@ == moved(pre, s, delta)
            &&& r ==> final(selection).aabb == Some(shifted_box(old(selection).aabb->0, delta))
            &&& r ==> match old(selection).cells {
                None => final(selection).cells is None,
                Some(v) => final(selection).cells matches Some(w) && w@ == v@.map_values(|p: IVec3| p.spec_add(delta)),
            }
            &&& !r ==> final(grid)@ == pre && *final(history) == *old(history) && final(selection).aabb == old(selection).aabb && final(selection).cells == old(selection).cells
            &&& r && s.len() == 0 ==> *final(history) == *old(history)
            &&& r && s.len() > 0 ==> committed(old(history).undo@, old(history).redo@, *final(history), pre, final(grid)@)
        }),
{
    let ghost pre = grid@;
    let ghost d0_marks = grid.dirty_view();
    proof {
        lemma_no_change_marked(pre, d0_marks);
    }
    let ghost sel = selection.selected();
    let ghost s = sel.intersect(pre.dom());
    proof {
        grid.lemma_finite();
        vstd::set_lib::lemma_len_subset(s, pre.dom());
    }
    if delta.x == 0 && delta.y == 0 && delta.z == 0 {
        return false;
    }
    let a = match selection.aabb {
        Some(a) => a,
        None => {
            return false;
        },
    };
    let new_min = a.min.add(delta);
    let new_max = a.max.add(delta);
    if new_min.y < 0 {
        return false;
    }
    let occ = match &selection.cells {
        Some(v) => gather_occupied(grid, v),
        None => {
            let cells = a.iter_cells();
            proof {
                lemma_scan_lists(cells@, a.cells());
                assert(cells@.to_set() =~= sel);
            }
            gather_occupied(grid, &cells)
        },
    };
    let ghost ps = positions(occ@);
    proof {
        assert(ps.no_duplicates());
        assert forall|p: IVec3| #[trigger] s.contains(p) <==> ps.contains(p) by {
            if ps.contains(p) {
                let k = choose|k: int| 0 <= k < ps.len() && ps[k] == p;
                assert(occ@[k].0 == p);
            }
        }
        assert(ps.to_set() =~= s);
        assert forall|k: int| 0 <= k < occ@.len() implies (#[trigger] occ@[k]).0.add_fits(delta) by {
            assert(ps[k] == occ@[k].0);
            assert(s.contains(ps[k]));
        }
        ps.unique_seq_to_set();
    }
    if occ.len() == 0 {
        proof {
            assert(s.len() == 0);
            assert(s =~= Set::<IVec3>::empty());
            assert(moved(pre, s, delta) =~= pre);
        }
        selection.aabb = Some(SelectionAabb { min: new_min, max: new_max });
        shift_mask(selection, delta);
        return true;
    }
    if !move_is_clear_exec(grid, &occ, delta) {
        return false;
    }
    let ghost u0 = history.undo@;
    let ghost r0 = history.redo@;
    history.begin();
    write_move(grid, history, &occ, delta, Ghost(pre), Ghost(s));
    history.commit(Ghost(pre), Ghost(grid@));
    selection.aabb = Some(SelectionAabb { min: new_min, max: new_max });
    shift_mask(selection, delta);
    true
}

/// Moves the mask, if any, by `delta`.
fn shift_mask(selection: &mut Selection, delta: IVec3)
    requires
        old(selection).wf(),
        old(selection).cells matches Some(v) ==> forall|i: int| 0 <= i < v@.len() ==> (#[trigger] v@[i]).add_fits(delta),
    ensures
        final(selection).wf(),
        final(selection).aabb == old(selection).aabb,
        match old(selection).cells {
            None => final(selection).cells is None,
            Some(v) => final(selection).cells matches Some(w) && w@ == v@.map_values(|p: IVec3| p.spec_add(delta)),
        },
{
    let shifted = match &selection.cells {
        Some(v) => Some(shift_cells(v, delta)),
        None => None,
    };
    selection.cells = shifted;
}

// ---------------------------------------------------------------------------
// Connected regions
// ---------------------------------------------------------------------------

/// Face neighbour `k` of `p`, in the order +x, -x, +y, -y, +z, -z.
pub open spec fn face_neighbour(p: IVec3, k: int) -> IVec3 {
    if k == 0 {
        IVec3 { x: (p.x + 1) as i32, ..p }
    } else if k == 1 {
        IVec3 { x: (p.x - 1) as i32, ..p }
    } else if k == 2 {
        IVec3 { y: (p.y + 1) as i32, ..p }
    } else if k == 3 {
        IVec3 { y: (p.y - 1) as i32, ..p }
    } else if k == 4 {
        IVec3 { z: (p.z + 1) as i32, ..p }
    } else {
        IVec3 { z: (p.z - 1) as i32, ..p }
    }
}

/// `q` is one step from `p` along one axis, in either direction.
pub open spec fn unit_apart(p: IVec3, q: IVec3) -> bool {
    abs_int(q.x - p.x) + abs_int(q.y - p.y) + abs_int(q.z - p.z) == 1
}

/// The six face neighbours of a cell whose coordinates are all strictly
/// inside the `i32` range are six different cells, and they are exactly the
/// cells one step away from it along one axis.
pub proof fn law_face_neighbours_are_unit_steps(p: IVec3)
    requires
        i32::MIN < p.x < i32::MAX,
        i32::MIN < p.y < i32::MAX,
        i32::MIN < p.z < i32::MAX,
    ensures
        forall|k: int| 0 <= k < 6 ==> unit_apart(p, #[trigger] face_neighbour(p, k)),
        forall|k: int, j: int|
            0 <= k < 6 && 0 <= j < 6 && k != j ==> #[trigger] face_neighbour(p, k) != #[trigger] face_neighbour(p, j),
        forall|q: IVec3| #[trigger] unit_apart(p, q) ==> exists|k: int| 0 <= k < 6 && face_neighbour(p, k) == q,
{
    assert forall|q: IVec3| #[trigger] unit_apart(p, q) implies exists|k: int| 0 <= k < 6 && face_neighbour(p, k) == q by {
        if q.x == p.x + 1 {
            assert(face_neighbour(p, 0) == q);
        } else if q.x == p.x - 1 {
            assert(face_neighbour(p, 1) == q);
        } else if q.y == p.y + 1 {
            assert(face_neighbour(p, 2) == q);
        } else if q.y == p.y - 1 {
            assert(face_neighbour(p, 3) == q);
        } else if q.z == p.z + 1 {
            assert(face_neighbour(p, 4) == q);
        } else {
            assert(face_neighbour(p, 5) == q);
        }
    }
}

/// Cell `i` of `s` is a face neighbour of an earlier cell.
pub open spec fn reached_earlier(s: Seq<IVec3>, i: int) -> bool {
    exists|j: int, k: int| 0 <= j < i && 0 <= k < 6 && s[i] == #[trigger] face_neighbour(s[j], k)
}

/// Every occupied cell has all six face neighbours in `i32` range.
pub open spec fn neighbours_fit(m: Map<IVec3, Color8>) -> bool {
    forall|p: IVec3|
        #[trigger] m.contains_key(p) ==> i32::MIN < p.x < i32::MAX && i32::MIN < p.y < i32::MAX
            && i32::MIN < p.z < i32::MAX
}

fn neighbour(p: IVec3, k: usize) -> (n: IVec3)
    requires
        k < 6,
        i32::MIN < p.x < i32::MAX,
        i32::MIN < p.y < i32::MAX,
        i32::MIN < p.z < i32::MAX,
    ensures
        n == face_neighbour(p, k as int),
{
    if k == 0 {
        IVec3 { x: p.x + 1, ..p }
    } else if k == 1 {
        IVec3 { x: p.x - 1, ..p }
    } else if k == 2 {
        IVec3 { y: p.y + 1, ..p }
    } else if k == 3 {
        IVec3 { y: p.y - 1, ..p }
    } else if k == 4 {
        IVec3 { z: p.z + 1, ..p }
    } else {
        IVec3 { z: p.z - 1, ..p }
    }
}

/// The face-connected region of cells sharing `start`'s color, in
/// breadth-first order from `start` (neighbours taken +x, -x, +y, -y, +z,
/// -z). Empty when `start` is empty. The grid is not changed.
pub fn connected_same_color(grid: &VoxelGrid, start: IVec3) -> (r: Vec<IVec3>)
    requires
        grid.wf(),
        neighbours_fit(grid@),
    ensures
        grid.spec_get(start) is None ==> r@.len() == 0,
        grid.spec_get(start) matches Some(c) ==> {
            &&& r@.len() >= 1
            &&& r@[0] == start
            &&& r@.no_duplicates()
            &&& forall|i: int| 0 <= i < r@.len() ==> #[trigger] map_get(grid@, r@[i]) == Some(c)
            &&& forall|i: int| 1 <= i < r@.len() ==> #[trigger] reached_earlier(r@, i)
            &&& forall|i: int, k: int|
                0 <= i < r@.len() && 0 <= k < 6 && map_get(grid@, #[trigger] face_neighbour(r@[i], k)) == Some(c)
                    ==> r@.contains(face_neighbour(r@[i], k))
            &&& forall|i: int, q: IVec3|
                0 <= i < r@.len() && #[trigger] unit_apart(r@[i], q) && map_get(grid@, q) == Some(c) ==> r@.contains(q)
        },
{
    let color = match grid.get(start) {
        Some(c) => c,
        None => {
            return Vec::new();
        },
    };
    let ghost m = grid@;
    proof {
        grid.lemma_finite();
    }
    let mut q: Vec<IVec3> = Vec::new();
    let mut seen: HashSet<i128> = HashSet::new();
    let ghost mut seen_cells: Set<IVec3> = Set::empty();
    let ghost mut parent: Seq<(int, int)> = seq![(0int, 0int)];
    seen.insert(pos_key_exec(start));
    proof {
        seen_cells = seen_cells.insert(start);
        assert forall|kk: i128| #[trigger] seen@.contains(kk) <==> exists|n: IVec3| seen_cells.contains(n) && pos_key(n) == kk by {
            if seen@.contains(kk) {
                assert(seen_cells.contains(start));
            }
        }
    }
    q.push(start);
    proof {
        assert forall|x: IVec3| q@.to_set().contains(x) <==> set![start].contains(x) by {
            if x == start {
                assert(q@[0] == start);
            }
        }
        assert(q@.to_set() =~= set![start]);
        assert(m.dom().contains(start));
        assert(set![start].subset_of(m.dom()));
        vstd::set_lib::lemma_len_subset(set![start], m.dom());
        q@.unique_seq_to_set();
    }
    let mut head: usize = 0;
    while head < q.len()
        invariant
            grid.wf(),
            grid@ == m,
            m.dom().finite(),
            neighbours_fit(m),
            map_get(m, start) == Some(color),
            head <= q@.len(),
            q@.len() <= m.dom().len(),
            q@.len() >= 1,
            q@[0] == start,
            q@.no_duplicates(),
            parent.len() == q@.len(),
            forall|i: int| 0 <= i < q@.len() ==> #[trigger] map_get(m, q@[i]) == Some(color),
            forall|i: int| 0 <= i < q@.len() ==> seen_cells.contains(#[trigger] q@[i]),
            forall|kk: i128| #[trigger] seen@.contains(kk) <==> exists|n: IVec3| seen_cells.contains(n) && pos_key(n) == kk,
            forall|n: IVec3| #[trigger] seen_cells.contains(n) && map_get(m, n) == Some(color) ==> q@.contains(n),
            forall|i: int, k: int| 0 <= i < head && 0 <= k < 6 ==> seen_cells.contains(#[trigger] face_neighbour(q@[i], k)),
            forall|i: int|
                1 <= i < q@.len() ==> 0 <= (#[trigger] parent[i]).0 < i && 0 <= parent[i].1 < 6 && q@[i] == face_neighbour(q@[parent[i].0], parent[i].1),
        decreases m.dom().len() - head,
    {
        let p = q[head];
        proof {
            assert(map_get(m, q@[head as int]) == Some(color));
            assert(m.contains_key(p));
        }
        let mut k: usize = 0;
        while k < 6
            invariant
                grid.wf(),
                grid@ == m,
                m.dom().finite(),
                neighbours_fit(m),
                m.contains_key(p),
                p == q@[head as int],
                head < q@.len(),
                map_get(m, start) == Some(color),
                q@.len() <= m.dom().len(),
                q@.len() >= 1,
                q@[0] == start,
                q@.no_duplicates(),
                parent.len() == q@.len(),
                k <= 6,
                forall|i: int| 0 <= i < q@.len() ==> #[trigger] map_get(m, q@[i]) == Some(color),
                forall|i: int| 0 <= i < q@.len() ==> seen_cells.contains(#[trigger] q@[i]),
                forall|kk: i128| #[trigger] seen@.contains(kk) <==> exists|n: IVec3| seen_cells.contains(n) && pos_key(n) == kk,
                forall|n: IVec3| #[trigger] seen_cells.contains(n) && map_get(m, n) == Some(color) ==> q@.contains(n),
                forall|i: int, kq: int| 0 <= i < head && 0 <= kq < 6 ==> seen_cells.contains(#[trigger] face_neighbour(q@[i], kq)),
                forall|kq: int| 0 <= kq < k ==> seen_cells.contains(#[trigger] face_neighbour(p, kq)),
                forall|i: int|
                    1 <= i < q@.len() ==> 0 <= (#[trigger] parent[i]).0 < i && 0 <= parent[i].1 < 6 && q@[i] == face_neighbour(q@[parent[i].0], parent[i].1),
            decreases 6 - k,
        {
            let n = neighbour(p, k);
            let key = pos_key_exec(n);
            if !seen.contains(&key) {
                seen.insert(key);
                proof {
                    if seen_cells.contains(n) {
                        assert(seen@.contains(key));
                    }
                    seen_cells = seen_cells.insert(n);
                    assert forall|kk: i128| #[trigger] seen@.contains(kk) <==> exists|nn: IVec3| seen_cells.contains(nn) && pos_key(nn) == kk by {
                        if kk == key {
                            assert(seen_cells.contains(n));
                        }
                    }
                }
                let hit = match grid.get(n) {
                    Some(c) => color_eq(&c, &color),
                    None => false,
                };
                if hit {
                    let ghost before = q@;
                    proof {
                        assert(!before.contains(n));
                        before.unique_seq_to_set();
                        before.lemma_push_to_set_commute(n);
                        assert forall|x: IVec3| #[trigger] before.push(n).to_set().contains(x) implies m.dom().contains(x) by {
                            if x != n {
                                assert(before.contains(x));
                                let i = choose|i: int| 0 <= i < before.len() && before[i] == x;
                                assert(map_get(m, before[i]) == Some(color));
                            }
                        }
                        vstd::set_lib::lemma_len_subset(before.push(n).to_set(), m.dom());
                    }
                    q.push(n);
                    proof {
                        assert(q@[q@.len() - 1] == n);
                        assert forall|x: IVec3| before.contains(x) implies q@.contains(x) by {
                            let i = choose|i: int| 0 <= i < before.len() && before[i] == x;
                            assert(q@[i] == x);
                        }
                        parent = parent.push((head as int, k as int));
                        q@.unique_seq_to_set();
                        assert(q@.len() == before.len() + 1);
                    }
                }
            } else {
                proof {
                    let nn = choose|nn: IVec3| seen_cells.contains(nn) && pos_key(nn) == key;
                    lemma_pos_key(nn, n);
                }
            }
            k = k + 1;
        }
        head = head + 1;
    }
    proof {
        assert(grid.spec_get(start) == Some(color));
        assert forall|i: int, kk: int| 0 <= i < q@.len() && 0 <= kk < 6 && map_get(m, #[trigger] face_neighbour(q@[i], kk)) == Some(color) implies q@.contains(face_neighbour(q@[i], kk)) by {
            assert(seen_cells.contains(face_neighbour(q@[i], kk)));
        }
        assert forall|i: int| 1 <= i < q@.len() implies #[trigger] reached_earlier(q@, i) by {
            let (j, kk) = parent[i];
            assert(q@[i] == face_neighbour(q@[j], kk));
        }
        assert(q@.len() >= 1);
        assert(q@[0] == start);
        assert(q@.no_duplicates());
        assert(forall|i: int| 0 <= i < q@.len() ==> #[trigger] map_get(grid@, q@[i]) == Some(color));
        assert(forall|i: int, k: int|
            0 <= i < q@.len() && 0 <= k < 6 && map_get(grid@, #[trigger] face_neighbour(q@[i], k)) == Some(color)
                ==> q@.contains(face_neighbour(q@[i], k)));
        assert forall|i: int, n: IVec3|
            0 <= i < q@.len() && #[trigger] unit_apart(q@[i], n) && map_get(grid@, n) == Some(color) implies q@.contains(n) by {
            assert(map_get(grid@, q@[i]) == Some(color));
            assert(grid@.contains_key(q@[i]));
            law_face_neighbours_are_unit_steps(q@[i]);
            let k = choose|k: int| 0 <= k < 6 && face_neighbour(q@[i], k) == n;
            assert(map_get(grid@, face_neighbour(q@[i], k)) == Some(color));
        }
    }
    q
}

// ---------------------------------------------------------------------------
// Drag state
// ---------------------------------------------------------------------------

/// The face plane a drag is anchored on: the face-normal axis and the cell
/// layer along it.
#[derive(Clone, Copy, Debug, PartialEq, Eq, Structural)]
pub struct StrokeAnchor {
    pub axis: usize,
    pub target_layer: i32,
}

/// Where a select drag is.
#[derive(Clone, Copy, Debug, Default, PartialEq, Eq, Structural)]
pub enum SelectPhase {
    #[default]
    Idle,
    Footprint,
    Extrude,
}

/// Live state of the select tool's drag. `thickness` is the signed cell
/// offset from the anchor layer in the normal direction.
#[derive(Clone, Copy, Debug, Default)]
pub struct SelectState {
    pub phase: SelectPhase,
    pub anchor: Option<StrokeAnchor>,
    pub corner1: Option<IVec3>,
    pub corner2: Option<IVec3>,
    pub normal_sign: i32,
    pub thickness: i32,
    pub last_press_cell: Option<IVec3>,
}

impl SelectState {
    /// Back to idle with no anchor or corners, a thickness of one and no
    /// normal; the last press is kept (a double click spans a reset).
    pub fn reset(&mut self)
        ensures
            final(self).phase == SelectPhase::Idle,
            final(self).anchor is None,
            final(self).corner1 is None,
            final(self).corner2 is None,
            final(self).normal_sign == 0,
            final(self).thickness == 1,
            final(self).last_press_cell == old(self).last_press_cell,
    {
        self.phase = SelectPhase::Idle;
        self.anchor = None;
        self.corner1 = None;
        self.corner2 = None;
        self.normal_sign = 0;
        self.thickness = 1;
    }
}

/// Far end of the drag along the anchor axis.
pub open spec fn depth_end(anchor: StrokeAnchor, state: SelectState) -> int {
    anchor.target_layer + state.thickness * state.normal_sign
}

/// The box being dragged out: the two corners with their anchor-axis
/// component replaced by the anchor layer and by that layer plus
/// `thickness * normal_sign`. `None` until the anchor and both corners are
/// set.
pub fn in_progress_aabb(state: &SelectState) -> (r: Option<SelectionAabb>)
    requires
        state.anchor matches Some(an) ==> an.axis < 3 && i32::MIN <= state.thickness
            * state.normal_sign <= i32::MAX && i32::MIN <= depth_end(an, *state) <= i32::MAX,
    ensures
        r is Some <==> (state.anchor is Some && state.corner1 is Some && state.corner2 is Some),
        r matches Some(box_) ==> ({
            let an = state.anchor->0;
            let a = state.corner1->0.spec_with(an.axis, an.target_layer);
            let b = state.corner2->0.spec_with(an.axis, depth_end(an, *state) as i32);
            box_.min == a.spec_min(b) && box_.max == a.spec_max(b)
        }),
{
    match (state.anchor, state.corner1, state.corner2) {
        (Some(anchor), Some(c1), Some(c2)) => {
            let depth = anchor.target_layer + state.thickness * state.normal_sign;
            let a = c1.with(anchor.axis, anchor.target_layer);
            let b = c2.with(anchor.axis, depth);
            Some(SelectionAabb::from_corners(a, b))
        },
        _ => None,
    }
}

/// The state after a reset: idle, no anchor or corners, no normal and a
/// thickness of one; the last press is kept.
pub open spec fn select_reset(s: SelectState) -> SelectState {
    SelectState {
        phase: SelectPhase::Idle,
        anchor: None,
        corner1: None,
        corner2: None,
        normal_sign: 0,
        thickness: 1,
        last_press_cell: s.last_press_cell,
    }
}

/// The drag has an anchor and both corners.
pub open spec fn select_ready(s: SelectState) -> bool {
    s.anchor is Some && s.corner1 is Some && s.corner2 is Some
}

/// The box a ready drag spans (see [`in_progress_aabb`]).
pub open spec fn drag_box(s: SelectState) -> SelectionAabb {
    let an = s.anchor->0;
    let a = s.corner1->0.spec_with(an.axis, an.target_layer);
    let b = s.corner2->0.spec_with(an.axis, depth_end(an, s) as i32);
    SelectionAabb { min: a.spec_min(b), max: a.spec_max(b) }
}

/// Ends a select drag: selects the dragged box when the drag has an anchor
/// and both corners, and resets the drag either way.
pub fn select_commit(state: &mut SelectState, selection: &mut Selection)
    requires
        old(state).anchor matches Some(an) ==> an.axis < 3 && i32::MIN <= old(state).thickness
            * old(state).normal_sign <= i32::MAX && i32::MIN <= depth_end(an, *old(state)) <= i32::MAX,
    ensures
        *final(state) == select_reset(*old(state)),
        select_ready(*old(state)) ==> final(selection).aabb == Some(drag_box(*old(state))),
        select_ready(*old(state)) ==> final(selection).cells is None,
        !select_ready(*old(state)) ==> final(selection).aabb == old(selection).aabb,
        !select_ready(*old(state)) ==> final(selection).cells == old(selection).cells,
{
    if let Some(aabb) = in_progress_aabb(state) {
        selection.set_aabb(aabb);
    }
    state.reset();
}

// ---------------------------------------------------------------------------
// The select tool, frame by frame
// ---------------------------------------------------------------------------

/// What the pointer and keys did this frame, for the select tool. The
/// caller picks and intersects rays with planes (floating point) and hands
/// over the cells it found.
#[derive(Clone, Copy, Debug)]
pub struct SelectEvent {
    pub esc: bool,
    pub rmb_just: bool,
    pub lmb_just: bool,
    pub lmb_released: bool,
    /// The pointer belongs to something else (a panel, the view gizmo, a
    /// camera modifier key).
    pub blocked: bool,
    /// The picked cell and the normal of the face the ray entered it by.
    pub hit: Option<(IVec3, IVec3)>,
    /// Where the ray meets the drag's anchor plane (on the press that starts
    /// a drag, the plane of the picked face).
    pub aim: Option<IVec3>,
    /// While extruding: the signed cell offset the pointer asks for along
    /// the anchor's normal.
    pub offset: i32,
}

/// The axis of a face normal.
pub open spec fn normal_axis_of(n: IVec3) -> usize {
    if n.x != 0 {
        0
    } else if n.y != 0 {
        1
    } else {
        2
    }
}

/// The anchor a select drag takes from the picked face: the face's axis and
/// the picked cell's own layer.
pub open spec fn picked_anchor(cell: IVec3, n: IVec3) -> StrokeAnchor {
    StrokeAnchor { axis: normal_axis_of(n), target_layer: cell.spec_comp(normal_axis_of(n)) }
}

/// Which way the picked face looks along its axis.
pub open spec fn normal_sign_of(n: IVec3) -> i32 {
    if n.spec_comp(normal_axis_of(n)) >= 0 {
        1i32
    } else {
        -1i32
    }
}

/// The drag with its thickness set to this frame's offset.
pub open spec fn extruded(s: SelectState, ev: SelectEvent) -> SelectState {
    SelectState { thickness: ev.offset, ..s }
}

/// The select drag after a frame. Esc or a right click abandons a drag in
/// progress; an unblocked click on a cell starts a footprint on the picked
/// face's layer; the footprint follows the aim and, on release, turns into
/// an extrusion; the extrusion follows the offset and an unblocked click
/// commits it.
pub open spec fn select_next(s: SelectState, ev: SelectEvent) -> SelectState {
    if ev.esc || ev.rmb_just {
        if s.phase != SelectPhase::Idle {
            select_reset(s)
        } else {
            s
        }
    } else {
        match s.phase {
            SelectPhase::Idle => if !ev.lmb_just || ev.blocked {
                s
            } else {
                match ev.hit {
                    None => s,
                    Some((cell, n)) => {
                        let start = match ev.aim {
                            Some(t) => t,
                            None => cell,
                        };
                        SelectState {
                            phase: SelectPhase::Footprint,
                            anchor: Some(picked_anchor(cell, n)),
                            corner1: Some(start),
                            corner2: Some(start),
                            normal_sign: normal_sign_of(n),
                            thickness: 0,
                            last_press_cell: s.last_press_cell,
                        }
                    },
                }
            },
            SelectPhase::Footprint => if s.anchor is None {
                s
            } else {
                let s2 = SelectState { corner2: if ev.aim is Some { ev.aim } else { s.corner2 }, ..s };
                if ev.lmb_released {
                    SelectState { phase: SelectPhase::Extrude, thickness: 0, ..s2 }
                } else {
                    s2
                }
            },
            SelectPhase::Extrude => if !select_ready(s) {
                s
            } else if ev.lmb_just && !ev.blocked {
                select_reset(extruded(s, ev))
            } else {
                extruded(s, ev)
            },
        }
    }
}

/// This frame commits the extruded box.
pub open spec fn select_commits(s: SelectState, ev: SelectEvent) -> bool {
    !(ev.esc || ev.rmb_just) && s.phase == SelectPhase::Extrude && select_ready(s) && ev.lmb_just && !ev.blocked
}

/// This frame clears the committed selection: Esc while no drag is going.
pub open spec fn select_clears(s: SelectState, ev: SelectEvent) -> bool {
    ev.esc && s.phase == SelectPhase::Idle
}

/// One frame of the select tool (see `select_next`). A committed drag
/// selects its box; Esc with no drag going clears the selection (a right
/// click does not: it orbits the camera).
pub fn select_step(state: &mut SelectState, selection: &mut Selection, ev: SelectEvent)
    requires
        old(state).anchor matches Some(an) ==> an.axis < 3,
        select_commits(*old(state), ev) ==> ({
            let s = extruded(*old(state), ev);
            &&& i32::MIN <= s.thickness * s.normal_sign <= i32::MAX
            &&& i32::MIN <= depth_end(s.anchor->0, s) <= i32::MAX
        }),
    ensures
        *final(state) == select_next(*old(state), ev),
        final(state).anchor matches Some(an) ==> an.axis < 3,
        select_commits(*old(state), ev) ==> final(selection).aabb == Some(drag_box(extruded(*old(state), ev)))
            && final(selection).cells is None,
        select_clears(*old(state), ev) ==> final(selection).aabb is None && final(selection).cells is None,
        !select_commits(*old(state), ev) && !select_clears(*old(state), ev) ==> final(selection).aabb == old(
            selection,
        ).aabb && final(selection).cells == old(selection).cells,
{
    if ev.esc || ev.rmb_just {
        if state.phase != SelectPhase::Idle {
            state.reset();
            return;
        }
        if ev.esc {
            selection.clear();
        }
        return;
    }
    match state.phase {
        SelectPhase::Idle => {
            if !ev.lmb_just || ev.blocked {
                return;
            }
            let (cell, n) = match ev.hit {
                None => {
                    return;
                },
                Some(h) => h,
            };
            let axis: usize = if n.x != 0 {
                0
            } else if n.y != 0 {
                1
            } else {
                2
            };
            let start = match ev.aim {
                Some(t) => t,
                None => cell,
            };
            state.phase = SelectPhase::Footprint;
            state.anchor = Some(StrokeAnchor { axis, target_layer: cell.comp(axis) });
            state.normal_sign = if n.comp(axis) >= 0 {
                1
            } else {
                -1
            };
            state.corner1 = Some(start);
            state.corner2 = Some(start);
            state.thickness = 0;
        },
        SelectPhase::Footprint => {
            if state.anchor.is_none() {
                return;
            }
            if let Some(t) = ev.aim {
                state.corner2 = Some(t);
            }
            if ev.lmb_released {
                state.phase = SelectPhase::Extrude;
                state.thickness = 0;
            }
        },
        SelectPhase::Extrude => {
            if state.anchor.is_none() || state.corner1.is_none() || state.corner2.is_none() {
                return;
            }
            state.thickness = ev.offset;
            if ev.lmb_just && !ev.blocked {
                select_commit(state, selection);
            }
        },
    }
}

// ---------------------------------------------------------------------------
// Outline of a mask
// ---------------------------------------------------------------------------

/// Cell `(a, b)` (each 0 or 1) of the four around the unit edge that runs
/// along `axis` from `key`: `key` moved by `a - 1` and `b - 1` on the two
/// other axes.
pub open spec fn around(axis: int, key: IVec3, a: int, b: int) -> IVec3 {
    let (p1, p2) = spec_other_axes(axis as usize);
    let k1 = key.spec_with(p1, (key.spec_comp(p1) + a - 1) as i32);
    k1.spec_with(p2, (k1.spec_comp(p2) + b - 1) as i32)
}

pub open spec fn holds(m: Set<IVec3>, axis: int, key: IVec3, a: int, b: int) -> int {
    if m.contains(around(axis, key, a, b)) { 1 } else { 0 }
}

/// How many of the four cells around the edge are in `m`.
pub open spec fn edge_count(m: Set<IVec3>, axis: int, key: IVec3) -> int {
    holds(m, axis, key, 0, 0) + holds(m, axis, key, 0, 1) + holds(m, axis, key, 1, 0) + holds(m, axis, key, 1, 1)
}

/// The edge is on the outline of `m`: some but not all four cells around it
/// are in `m`, and two of them only when they touch diagonally.
pub open spec fn on_outline(m: Set<IVec3>, axis: int, key: IVec3) -> bool {
    let k = edge_count(m, axis, key);
    let same_row = (holds(m, axis, key, 0, 0) == 1 && holds(m, axis, key, 0, 1) == 1) || (holds(m, axis, key, 1, 0) == 1 && holds(m, axis, key, 1, 1) == 1);
    let same_col = (holds(m, axis, key, 0, 0) == 1 && holds(m, axis, key, 1, 0) == 1) || (holds(m, axis, key, 0, 1) == 1 && holds(m, axis, key, 1, 1) == 1);
    &&& k != 0
    &&& k != 4
    &&& !(k == 2 && (same_row || same_col))
}

/// Packed hash key of the edge along `axis` from `key`.
pub open spec fn edge_key(axis: int, key: IVec3) -> i128 {
    (pos_key(key) * 4 + axis) as i128
}

proof fn lemma_edge_key(a1: int, k1: IVec3, a2: int, k2: IVec3)
    requires
        0 <= a1 < 3,
        0 <= a2 < 3,
    ensures
        edge_key(a1, k1) as int == pos_key(k1) * 4 + a1,
        edge_key(a1, k1) == edge_key(a2, k2) ==> a1 == a2 && k1 == k2,
{
    lemma_pos_key(k1, k2);
    lemma_pos_key(k2, k1);
    assert(-0x8000_0000_8000_0000_8000_0000 <= pos_key(k1) <= 0x7FFF_FFFF_7FFF_FFFF_7FFF_FFFF);
    assert(-0x8000_0000_8000_0000_8000_0000 <= pos_key(k2) <= 0x7FFF_FFFF_7FFF_FFFF_7FFF_FFFF);
}

fn edge_key_exec(axis: usize, key: IVec3) -> (k: i128)
    requires
        axis < 3,
    ensures
        k == edge_key(axis as int, key),
{
    let p = pos_key_exec(key);
    proof {
        lemma_edge_key(axis as int, key, axis as int, key);
    }
    p * 4 + axis as i128
}

fn around_exec(axis: usize, key: IVec3, a: i32, b: i32) -> (r: IVec3)
    requires
        axis < 3,
        0 <= a <= 2,
        0 <= b <= 2,
        i32::MIN <= key.spec_comp(spec_other_axes(axis).0) + a - 1 <= i32::MAX,
        i32::MIN <= key.spec_comp(spec_other_axes(axis).1) + b - 1 <= i32::MAX,
    ensures
        r == around(axis as int, key, a as int, b as int),
{
    let (p1, p2) = other_axes(axis);
    let k1 = key.with(p1, key.comp(p1) + (a - 1));
    k1.with(p2, k1.comp(p2) + (b - 1))
}

/// Every coordinate of `p` is strictly inside `i32` range.
pub open spec fn inside_i32(p: IVec3) -> bool {
    i32::MIN < p.x < i32::MAX && i32::MIN < p.y < i32::MAX && i32::MIN < p.z < i32::MAX
}

/// A cell around an edge puts the edge's start at one of the cell's own
/// corner offsets.
proof fn lemma_around_inverse(axis: int, key: IVec3, a: int, b: int)
    requires
        0 <= axis < 3,
        0 <= a < 2,
        0 <= b < 2,
        inside_i32(around(axis, key, a, b)),
        i32::MIN < key.x && i32::MIN < key.y && i32::MIN < key.z,
    ensures
        around(axis, around(axis, key, a, b), (1 - a) + 1, (1 - b) + 1) == key,
{
}

/// Edges of the mask's outline, each once, as `(axis, start)` for the unit
/// edge from `start` along `axis`: the edges of the masked cells that lie on
/// the outline of the masked shape (see [`on_outline`]).
pub fn silhouette_edges(mask: &Vec<IVec3>) -> (r: Vec<(u8, IVec3)>)
    requires
        forall|i: int| 0 <= i < mask@.len() ==> inside_i32(#[trigger] mask@[i]),
    ensures
        ({
            let m = mask@.to_set();
            &&& r@.no_duplicates()
            &&& forall|i: int| 0 <= i < r@.len() ==> (#[trigger] r@[i]).0 < 3 && on_outline(m, r@[i].0 as int, r@[i].1)
            &&& forall|axis: u8, key: IVec3|
                axis < 3 && i32::MIN < key.x && i32::MIN < key.y && i32::MIN < key.z && #[trigger] on_outline(m, axis as int, key)
                    ==> r@.contains((axis, key))
        }),
{
    let ghost m = mask@.to_set();
    let mut keys: HashSet<i128> = HashSet::new();
    let mut i: usize = 0;
    while i < mask.len()
        invariant
            i <= mask@.len(),
            forall|k: i128| #[trigger] keys@.contains(k) <==> exists|j: int| 0 <= j < i && pos_key(mask@[j]) == k,
        decreases mask@.len() - i,
    {
        let k = pos_key_exec(mask[i]);
        keys.insert(k);
        proof {
            assert forall|kk: i128| #[trigger] keys@.contains(kk) <==> exists|j: int| 0 <= j < i + 1 && pos_key(mask@[j]) == kk by {
                if kk == k {
                    assert(pos_key(mask@[i as int]) == kk);
                }
            }
        }
        i = i + 1;
    }
    let mut out: Vec<(u8, IVec3)> = Vec::new();
    let mut seen: HashSet<i128> = HashSet::new();
    let mut ci: usize = 0;
    while ci < mask.len()
        invariant
            forall|i: int| 0 <= i < mask@.len() ==> inside_i32(#[trigger] mask@[i]),
            m == mask@.to_set(),
            ci <= mask@.len(),
            forall|k: i128| #[trigger] keys@.contains(k) <==> exists|j: int| 0 <= j < mask@.len() && pos_key(mask@[j]) == k,
            out@.no_duplicates(),
            forall|t: int| 0 <= t < out@.len() ==> (#[trigger] out@[t]).0 < 3 && on_outline(m, out@[t].0 as int, out@[t].1),
            forall|ax: int, key: IVec3| 0 <= ax < 3 && #[trigger] seen@.contains(edge_key(ax, key)) && on_outline(m, ax, key) ==> out@.contains((ax as u8, key)),
            forall|t: int| 0 <= t < out@.len() ==> seen@.contains(edge_key((#[trigger] out@[t]).0 as int, out@[t].1)),
            forall|j: int, ax: int, a: int, b: int|
                0 <= j < ci && 0 <= ax < 3 && 0 <= a < 2 && 0 <= b < 2 ==> #[trigger] seen@.contains(edge_key(ax, around(ax, mask@[j], a + 1, b + 1))),
        decreases mask@.len() - ci,
    {
        let cell = mask[ci];
        proof {
            assert(inside_i32(mask@[ci as int]));
        }
        let mut axis: usize = 0;
        while axis < 3
            invariant
                ci < mask@.len(),
                cell == mask@[ci as int],
                i32::MIN < cell.x < i32::MAX,
                i32::MIN < cell.y < i32::MAX,
                i32::MIN < cell.z < i32::MAX,
                forall|i: int| 0 <= i < mask@.len() ==> inside_i32(#[trigger] mask@[i]),
                m == mask@.to_set(),
                axis <= 3,
                forall|k: i128| #[trigger] keys@.contains(k) <==> exists|j: int| 0 <= j < mask@.len() && pos_key(mask@[j]) == k,
                out@.no_duplicates(),
                forall|t: int| 0 <= t < out@.len() ==> (#[trigger] out@[t]).0 < 3 && on_outline(m, out@[t].0 as int, out@[t].1),
                forall|ax: int, key: IVec3| 0 <= ax < 3 && #[trigger] seen@.contains(edge_key(ax, key)) && on_outline(m, ax, key) ==> out@.contains((ax as u8, key)),
                forall|t: int| 0 <= t < out@.len() ==> seen@.contains(edge_key((#[trigger] out@[t]).0 as int, out@[t].1)),
                forall|j: int, ax: int, a: int, b: int|
                    0 <= j < ci && 0 <= ax < 3 && 0 <= a < 2 && 0 <= b < 2 ==> #[trigger] seen@.contains(edge_key(ax, around(ax, mask@[j], a + 1, b + 1))),
                forall|ax: int, a: int, b: int|
                    0 <= ax < axis && 0 <= a < 2 && 0 <= b < 2 ==> #[trigger] seen@.contains(edge_key(ax, around(ax, cell, a + 1, b + 1))),
            decreases 3 - axis,
        {
            let mut db: i32 = 0;
            while db < 2
                invariant
                    ci < mask@.len(),
                    cell == mask@[ci as int],
                    i32::MIN < cell.x < i32::MAX,
                    i32::MIN < cell.y < i32::MAX,
                    i32::MIN < cell.z < i32::MAX,
                    m == mask@.to_set(),
                    axis < 3,
                    0 <= db <= 2,
                    forall|k: i128| #[trigger] keys@.contains(k) <==> exists|j: int| 0 <= j < mask@.len() && pos_key(mask@[j]) == k,
                    out@.no_duplicates(),
                    forall|t: int| 0 <= t < out@.len() ==> (#[trigger] out@[t]).0 < 3 && on_outline(m, out@[t].0 as int, out@[t].1),
                    forall|ax: int, key: IVec3| 0 <= ax < 3 && #[trigger] seen@.contains(edge_key(ax, key)) && on_outline(m, ax, key) ==> out@.contains((ax as u8, key)),
                    forall|t: int| 0 <= t < out@.len() ==> seen@.contains(edge_key((#[trigger] out@[t]).0 as int, out@[t].1)),
                    forall|j: int, ax: int, a: int, b: int|
                        0 <= j < ci && 0 <= ax < 3 && 0 <= a < 2 && 0 <= b < 2 ==> #[trigger] seen@.contains(edge_key(ax, around(ax, mask@[j], a + 1, b + 1))),
                    forall|ax: int, a: int, b: int|
                        0 <= ax < axis && 0 <= a < 2 && 0 <= b < 2 ==> #[trigger] seen@.contains(edge_key(ax, around(ax, cell, a + 1, b + 1))),
                    forall|a: int, b: int|
                        0 <= a < db && 0 <= b < 2 ==> #[trigger] seen@.contains(edge_key(axis as int, around(axis as int, cell, a + 1, b + 1))),
                decreases 2 - db,
            {
                let mut dc: i32 = 0;
                while dc < 2
                    invariant
                        ci < mask@.len(),
                        cell == mask@[ci as int],
                        i32::MIN < cell.x < i32::MAX,
                        i32::MIN < cell.y < i32::MAX,
                        i32::MIN < cell.z < i32::MAX,
                        m == mask@.to_set(),
                        axis < 3,
                        0 <= db < 2,
                        0 <= dc <= 2,
                        forall|k: i128| #[trigger] keys@.contains(k) <==> exists|j: int| 0 <= j < mask@.len() && pos_key(mask@[j]) == k,
                        out@.no_duplicates(),
                        forall|t: int| 0 <= t < out@.len() ==> (#[trigger] out@[t]).0 < 3 && on_outline(m, out@[t].0 as int, out@[t].1),
                        forall|ax: int, key: IVec3| 0 <= ax < 3 && #[trigger] seen@.contains(edge_key(ax, key)) && on_outline(m, ax, key) ==> out@.contains((ax as u8, key)),
                        forall|t: int| 0 <= t < out@.len() ==> seen@.contains(edge_key((#[trigger] out@[t]).0 as int, out@[t].1)),
                        forall|j: int, ax: int, a: int, b: int|
                            0 <= j < ci && 0 <= ax < 3 && 0 <= a < 2 && 0 <= b < 2 ==> #[trigger] seen@.contains(edge_key(ax, around(ax, mask@[j], a + 1, b + 1))),
                        forall|ax: int, a: int, b: int|
                            0 <= ax < axis && 0 <= a < 2 && 0 <= b < 2 ==> #[trigger] seen@.contains(edge_key(ax, around(ax, cell, a + 1, b + 1))),
                        forall|a: int, b: int|
                            0 <= a < db && 0 <= b < 2 ==> #[trigger] seen@.contains(edge_key(axis as int, around(axis as int, cell, a + 1, b + 1))),
                        forall|b: int|
                            0 <= b < dc ==> #[trigger] seen@.contains(edge_key(axis as int, around(axis as int, cell, db + 1, b + 1))),
                    decreases 2 - dc,
                {
                    let key = around_exec(axis, cell, db + 1, dc + 1);
                    let kk = edge_key_exec(axis, key);
                    let fresh = !seen.contains(&kk);
                    if fresh {
                        let ghost seen0 = seen@;
                        let ghost out0 = out@;
                        seen.insert(kk);
                        let kept = edge_kept(&keys, axis, key, Ghost(m), Ghost(mask@));
                        if kept {
                            proof {
                                if out@.contains((axis as u8, key)) {
                                    let t = choose|t: int| 0 <= t < out@.len() && out@[t] == (axis as u8, key);
                                    assert(seen0.contains(edge_key(out@[t].0 as int, out@[t].1)));
                                }
                            }
                            out.push((axis as u8, key));
                            proof {
                                assert(out@[out@.len() - 1] == (axis as u8, key));
                                assert forall|x: (u8, IVec3)| out0.contains(x) implies out@.contains(x) by {
                                    let t = choose|t: int| 0 <= t < out0.len() && out0[t] == x;
                                    assert(out@[t] == x);
                                }
                            }
                        }
                        proof {
                            assert forall|ax: int, key2: IVec3| 0 <= ax < 3 && #[trigger] seen@.contains(edge_key(ax, key2)) && on_outline(m, ax, key2) implies out@.contains((ax as u8, key2)) by {
                                lemma_edge_key(ax, key2, axis as int, key);
                                if !seen0.contains(edge_key(ax, key2)) {
                                    assert(ax == axis && key2 == key);
                                } else {
                                    assert(out0.contains((ax as u8, key2)));
                                    let t = choose|t: int| 0 <= t < out0.len() && out0[t] == (ax as u8, key2);
                                    assert(out@[t] == (ax as u8, key2));
                                }
                            }
                        }
                    }
                    dc = dc + 1;
                }
                db = db + 1;
            }
            axis = axis + 1;
        }
        ci = ci + 1;
    }
    proof {
        assert forall|axis: u8, key: IVec3|
            axis < 3 && i32::MIN < key.x && i32::MIN < key.y && i32::MIN < key.z && #[trigger] on_outline(m, axis as int, key)
                implies out@.contains((axis, key)) by {
            let ax = axis as int;
            let (a, b) = if holds(m, ax, key, 0, 0) == 1 {
                (0int, 0int)
            } else if holds(m, ax, key, 0, 1) == 1 {
                (0int, 1int)
            } else if holds(m, ax, key, 1, 0) == 1 {
                (1int, 0int)
            } else {
                (1int, 1int)
            };
            let c = around(ax, key, a, b);
            assert(m.contains(c));
            let j = choose|j: int| 0 <= j < mask@.len() && mask@[j] == c;
            assert(inside_i32(mask@[j]));
            lemma_around_inverse(ax, key, a, b);
            assert(seen@.contains(edge_key(ax, around(ax, mask@[j], (1 - a) + 1, (1 - b) + 1))));
            assert((ax as u8) == axis);
        }
    }
    out
}

/// Whether the edge along `axis` from `key` is on the outline of the mask
/// whose packed cells `keys` holds.
fn edge_kept(keys: &HashSet<i128>, axis: usize, key: IVec3, Ghost(m): Ghost<Set<IVec3>>, Ghost(cells): Ghost<Seq<IVec3>>) -> (r: bool)
    requires
        axis < 3,
        i32::MIN < key.x,
        i32::MIN < key.y,
        i32::MIN < key.z,
        m == cells.to_set(),
        forall|k: i128| #[trigger] keys@.contains(k) <==> exists|j: int| 0 <= j < cells.len() && pos_key(cells[j]) == k,
    ensures
        r == on_outline(m, axis as int, key),
{
    let h00 = in_keys(keys, around_exec(axis, key, 0, 0), Ghost(m), Ghost(cells));
    let h01 = in_keys(keys, around_exec(axis, key, 0, 1), Ghost(m), Ghost(cells));
    let h10 = in_keys(keys, around_exec(axis, key, 1, 0), Ghost(m), Ghost(cells));
    let h11 = in_keys(keys, around_exec(axis, key, 1, 1), Ghost(m), Ghost(cells));
    let k = (h00 as u8) + (h01 as u8) + (h10 as u8) + (h11 as u8);
    if k == 0 || k == 4 {
        return false;
    }
    if k == 2 {
        let same_row = (h00 && h01) || (h10 && h11);
        let same_col = (h00 && h10) || (h01 && h11);
        if same_row || same_col {
            return false;
        }
    }
    true
}

fn in_keys(keys: &HashSet<i128>, p: IVec3, Ghost(m): Ghost<Set<IVec3>>, Ghost(cells): Ghost<Seq<IVec3>>) -> (r: bool)
    requires
        m == cells.to_set(),
        forall|k: i128| #[trigger] keys@.contains(k) <==> exists|j: int| 0 <= j < cells.len() && pos_key(cells[j]) == k,
    ensures
        r == m.contains(p),
{
    let k = pos_key_exec(p);
    let r = keys.contains(&k);
    proof {
        if r {
            let j = choose|j: int| 0 <= j < cells.len() && pos_key(cells[j]) == k;
            lemma_pos_key(cells[j], p);
            assert(cells.contains(p));
        } else {
            if m.contains(p) {
                let j = choose|j: int| 0 <= j < cells.len() && cells[j] == p;
                assert(pos_key(cells[j]) == k);
            }
        }
    }
    r
}

} // verus!
