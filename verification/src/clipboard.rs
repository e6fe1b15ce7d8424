//! Copy, cut and paste of voxel regions.

use crate::geom::{Color8, IVec3};
use crate::grid::{changes_marked, lemma_marks_chain, lemma_no_change_marked, map_get, VoxelGrid};
use crate::history::{committed, lemma_grid_set_len, stroke_takes, History};
use crate::select::{
    clear_selection, gather_occupied, lemma_scan_lists, positions, write_moved, Selection,
    SelectionAabb,
};
use vstd::prelude::*;

verus! {

/// A copied region: its occupied cells with their colors, at the positions
/// they were copied from, and the selection box, whose min corner is the
/// anchor a paste lines up with.
#[derive(Clone, Debug)]
pub struct Stamp {
    pub cells: Vec<(IVec3, Color8)>,
    pub origin: IVec3,
    pub aabb: SelectionAabb,
}

impl Stamp {
    pub fn voxel_count(&self) -> (r: usize)
        ensures
            r == self.cells@.len(),
    {
        self.cells.len()
    }
}

/// The copied stamp, if any.
#[derive(Default)]
pub struct Clipboard {
    pub stamp: Option<Stamp>,
}

impl Clipboard {
    pub fn has_stamp(&self) -> (r: bool)
        ensures
            r == self.stamp is Some,
    {
        self.stamp.is_some()
    }
}

/// Snapshot of the occupied selected cells (the mask's when there is one,
/// else the box's), anchored at the box's min corner. `None` without a box
/// or when no selected cell is occupied.
pub fn copy_selection(grid: &VoxelGrid, selection: &Selection) -> (r: Option<Stamp>)
    requires
        grid.wf(),
        selection.wf(),
    ensures
        ({
            let s = selection.selected().intersect(grid@.dom());
            &&& r is None <==> (selection.aabb is None || s.len() == 0)
            &&& r matches Some(st) ==> {
                &&& st.origin == selection.aabb->0.min
                &&& st.aabb == selection.aabb->0
                &&& positions(st.cells@).no_duplicates()
                &&& positions(st.cells@).to_set() == s
                &&& forall|k: int| 0 <= k < st.cells@.len() ==> #[trigger] st.cells@[k].1 == grid@[st.cells@[k].0]
            }
        }),
{
    let ghost sel = selection.selected();
    let ghost s = sel.intersect(grid@.dom());
    proof {
        grid.lemma_finite();
        vstd::set_lib::lemma_len_subset(s, grid@.dom());
    }
    let aabb = match selection.aabb {
        Some(a) => a,
        None => {
            return None;
        },
    };
    let cells = match &selection.cells {
        Some(v) => gather_occupied(grid, v),
        None => {
            let all = aabb.iter_cells();
            proof {
                lemma_scan_lists(all@, aabb.cells());
                assert(all@.to_set() =~= sel);
            }
            gather_occupied(grid, &all)
        },
    };
    let ghost ps = positions(cells@);
    proof {
        assert forall|p: IVec3| #[trigger] s.contains(p) <==> ps.contains(p) by {
            if ps.contains(p) {
                let k = choose|k: int| 0 <= k < ps.len() && ps[k] == p;
                assert(cells@[k].0 == p);
            }
        }
        assert(ps.to_set() =~= s);
        ps.unique_seq_to_set();
        assert forall|k: int| 0 <= k < cells@.len() implies #[trigger] cells@[k].1 == grid@[cells@[k].0] by {
            assert(grid@.contains_key(cells@[k].0));
        }
    }
    if cells.len() == 0 {
        return None;
    }
    Some(Stamp { cells, origin: aabb.min, aabb })
}

/// Copies the selection, then clears it as one stroke. `None` (and nothing
/// cleared) when there is nothing to copy.
pub fn cut_selection(grid: &mut VoxelGrid, history: &mut History, selection: &Selection) -> (r: Option<Stamp>)
    requires
        old(grid).wf(),
        old(history).wf(),
        selection.wf(),
        old(grid)@.dom().len() < u32::MAX,
    ensures
        final(grid).wf(),
        final(history).wf(),
        ({
            let s = selection.selected().intersect(old(grid)@.dom());
            &&& r is None <==> (selection.aabb is None || s.len() == 0)
            &&& r is None ==> final(grid)@ == old(grid)@ && *final(history) == *old(history)
            &&& r matches Some(st) ==> {
                &&& st.origin == selection.aabb->0.min
                &&& st.aabb == selection.aabb->0
                &&& positions(st.cells@).no_duplicates()
                &&& positions(st.cells@).to_set() == s
                &&& forall|k: int| 0 <= k < st.cells@.len() ==> #[trigger] st.cells@[k].1 == old(grid)@[st.cells@[k].0]
                &&& final(grid)@ == old(grid)@.remove_keys(selection.selected())
                &&& committed(old(history).undo@, old(history).redo@, *final(history), old(grid)@, final(grid)@)
            }
        }),
{
    let stamp = match copy_selection(grid, selection) {
        Some(st) => st,
        None => {
            return None;
        },
    };
    clear_selection(grid, history, selection);
    Some(stamp)
}

/// Whether a stamp can be pasted with its origin at `target` without
/// leaving `i32` range, and the grid can take every cell.
pub open spec fn paste_fits(grid_len: nat, stamp: Stamp, target: IVec3) -> bool {
    let d = target.spec_sub(stamp.origin);
    &&& target.sub_fits(stamp.origin)
    &&& stamp.aabb.min.add_fits(d)
    &&& stamp.aabb.max.add_fits(d)
    &&& forall|k: int| 0 <= k < stamp.cells@.len() ==> (#[trigger] stamp.cells@[k]).0.add_fits(d)
    &&& grid_len + stamp.cells@.len() < u32::MAX
}

/// Writes the stamp's cells with its origin at `target`, overwriting what
/// is there, as one stroke (cells landing below the floor are skipped).
/// Returns the pasted box; `None`, with nothing written, when the box would
/// start below the floor.
pub fn paste_stamp(grid: &mut VoxelGrid, history: &mut History, stamp: &Stamp, target: IVec3) -> (r: Option<SelectionAabb>)
    requires
        old(grid).wf(),
        old(history).wf(),
        paste_fits(old(grid)@.dom().len(), *stamp, target),
    ensures
        final(grid).wf(),
        final(history).wf(),
        old(grid).dirty_view().subset_of(final(grid).dirty_view()),
        changes_marked(old(grid)@, final(grid)@, final(grid).dirty_view()),
        ({
            let d = target.spec_sub(stamp.origin);
            &&& r is None <==> stamp.aabb.min.spec_add(d).y < 0
            &&& r is None ==> final(grid)@ == old(grid)@ && *final(history) == *old(history)
            &&& r matches Some(b) ==> {
                &&& b.min == stamp.aabb.min.spec_add(d)
                &&& b.max == stamp.aabb.max.spec_add(d)
                &&& final(grid)@ == write_moved(old(grid)@, stamp.cells@, d)
                &&& committed(old(history).undo@, old(history).redo@, *final(history), old(grid)@, final(grid)@)
            }
        }),
{
    let delta = target.sub(stamp.origin);
    let new_min = stamp.aabb.min.add(delta);
    let new_max = stamp.aabb.max.add(delta);
    proof {
        lemma_no_change_marked(grid@, grid.dirty_view());
    }
    if new_min.y < 0 {
        return None;
    }
    let ghost pre = grid@;
    let ghost d0 = grid.dirty_view();
    let ghost u0 = history.undo@;
    let ghost r0 = history.redo@;
    proof {
        grid.lemma_finite();
        assert(stamp.cells@.take(0) =~= Seq::<(IVec3, Color8)>::empty());
    }
    history.begin();
    let mut i: usize = 0;
    while i < stamp.cells.len()
        invariant
            grid.wf(),
            history.wf(),
            history.undo@ == u0,
            history.redo@ == r0,
            history.current matches Some(st) && stroke_takes(pre, grid@, st.deltas@),
            i <= stamp.cells@.len(),
            delta == target.spec_sub(stamp.origin),
            forall|k: int| 0 <= k < stamp.cells@.len() ==> (#[trigger] stamp.cells@[k]).0.add_fits(delta),
            pre.dom().finite(),
            pre.dom().len() + stamp.cells@.len() < u32::MAX,
            grid@.dom().len() <= pre.dom().len() + i,
            grid@ == write_moved(pre, stamp.cells@.take(i as int), delta),
            d0.subset_of(grid.dirty_view()),
            changes_marked(pre, grid@, grid.dirty_view()),
        decreases stamp.cells@.len() - i,
    {
        let (src, color) = stamp.cells[i];
        let dst = src.add(delta);
        let ghost before = grid@;
        proof {
            grid.lemma_finite();
            assert(stamp.cells@.take(i + 1).drop_last() =~= stamp.cells@.take(i as int));
            assert(stamp.cells@.take(i + 1).last() == (src, color));
        }
        if dst.y >= 0 {
            let ghost db = grid.dirty_view();
            history.record(grid, dst, Some(color));
            proof {
                lemma_grid_set_len(before, dst, Some(color));
                lemma_marks_chain(pre, before, grid@, db, grid.dirty_view());
            }
        }
        i = i + 1;
    }
    proof {
        assert(stamp.cells@.take(stamp.cells@.len() as int) =~= stamp.cells@);
    }
    history.commit(Ghost(pre), Ghost(grid@));
    Some(SelectionAabb { min: new_min, max: new_max })
}

/// The stamp's cell positions moved so its origin sits at `target`, each
/// once.
pub fn pasted_mask(stamp: &Stamp, target: IVec3) -> (r: Vec<IVec3>)
    requires
        paste_fits(0, *stamp, target),
    ensures
        r@.no_duplicates(),
        r@.to_set() == positions(stamp.cells@).map_values(|p: IVec3| p.spec_add(target.spec_sub(stamp.origin))).to_set(),
{
    let delta = target.sub(stamp.origin);
    let ghost want = positions(stamp.cells@).map_values(|p: IVec3| p.spec_add(delta));
    let mut out: Vec<IVec3> = Vec::new();
    let mut i: usize = 0;
    while i < stamp.cells.len()
        invariant
            i <= stamp.cells@.len(),
            delta == target.spec_sub(stamp.origin),
            want == positions(stamp.cells@).map_values(|p: IVec3| p.spec_add(delta)),
            forall|k: int| 0 <= k < stamp.cells@.len() ==> (#[trigger] stamp.cells@[k]).0.add_fits(delta),
            out@.no_duplicates(),
            out@.to_set() == want.take(i as int).to_set(),
        decreases stamp.cells@.len() - i,
    {
        let p = stamp.cells[i].0.add(delta);
        proof {
            assert(want[i as int] == p);
            assert(want.take(i + 1) =~= want.take(i as int).push(p));
            want.take(i as int).lemma_push_to_set_commute(p);
        }
        let mut j: usize = 0;
        let mut dup = false;
        while j < out.len()
            invariant_except_break
                !dup,
            invariant
                j <= out@.len(),
                !dup ==> forall|k: int| 0 <= k < j ==> out@[k] != p,
            ensures
                dup ==> out@.contains(p),
                !dup ==> forall|k: int| 0 <= k < out@.len() ==> out@[k] != p,
            decreases out@.len() - j,
        {
            if out[j] == p {
                dup = true;
                assert(out@[j as int] == p);
                break;
            }
            j = j + 1;
        }
        if !dup {
            let ghost before = out@;
            out.push(p);
            proof {
                before.lemma_push_to_set_commute(p);
                assert(out@ == before.push(p));
            }
        } else {
            proof {
                assert(out@.to_set().insert(p) =~= out@.to_set());
            }
        }
        i = i + 1;
    }
    proof {
        assert(want.take(want.len() as int) =~= want);
    }
    out
}

/// Where a paste lands: the hovered cell if any, else the selection box's
/// min corner, else the stamp's own origin.
pub fn resolve_paste_anchor(stamp: &Stamp, cursor_hit: Option<IVec3>, selection: &Selection) -> (r: IVec3)
    ensures
        r == match cursor_hit {
            Some(c) => c,
            None => match selection.aabb {
                Some(a) => a.min,
                None => stamp.origin,
            },
        },
{
    if let Some(cell) = cursor_hit {
        return cell;
    }
    if let Some(aabb) = selection.aabb {
        return aabb.min;
    }
    stamp.origin
}

/// What a paste did.
#[derive(Clone, Copy, Debug, PartialEq, Eq, Structural)]
pub enum PasteOutcome {
    /// The stamp's cells were written.
    Pasted { voxels: usize },
    /// Refused: the pasted box would start below the floor.
    BelowFloor,
}

/// The paste flow shared by every paste command: anchor the stamp (see
/// [`resolve_paste_anchor`]), paste it, and on success select the pasted
/// region, as a mask when the selection had one and as a box otherwise.
pub fn execute_paste(
    grid: &mut VoxelGrid,
    history: &mut History,
    selection: &mut Selection,
    stamp: &Stamp,
    cursor_hit: Option<IVec3>,
) -> (r: PasteOutcome)
    requires
        old(grid).wf(),
        old(history).wf(),
        paste_fits(old(grid)@.dom().len(), *stamp, resolve_anchor(*stamp, cursor_hit, *old(selection))),
    ensures
        final(grid).wf(),
        final(history).wf(),
        ({
            let target = resolve_anchor(*stamp, cursor_hit, *old(selection));
            let d = target.spec_sub(stamp.origin);
            &&& r == PasteOutcome::BelowFloor <==> stamp.aabb.min.spec_add(d).y < 0
            &&& r == PasteOutcome::BelowFloor ==> final(grid)@ == old(grid)@ && *final(history) == *old(history)
                && final(selection).aabb == old(selection).aabb && final(selection).cells == old(selection).cells
            &&& r != PasteOutcome::BelowFloor ==> {
                &&& r == PasteOutcome::Pasted { voxels: stamp.cells@.len() as usize }
                &&& final(grid)@ == write_moved(old(grid)@, stamp.cells@, d)
                &&& committed(old(history).undo@, old(history).redo@, *final(history), old(grid)@, final(grid)@)
                &&& old(selection).cells is Some ==> final(selection).selected() == positions(stamp.cells@).map_values(
                    |p: IVec3| p.spec_add(d),
                ).to_set()
                &&& old(selection).cells is None ==> final(selection).cells is None && final(selection).aabb == Some(
                    SelectionAabb { min: stamp.aabb.min.spec_add(d), max: stamp.aabb.max.spec_add(d) },
                )
            }
        }),
{
    let anchor = resolve_paste_anchor(stamp, cursor_hit, selection);
    let had_mask = selection.cells.is_some();
    let pasted = pasted_mask(stamp, anchor);
    match paste_stamp(grid, history, stamp, anchor) {
        Some(new_aabb) => {
            if had_mask {
                let ghost want = pasted@.to_set();
                selection.set_cells(pasted);
                proof {
                    assert(selection.selected() == want);
                }
            } else {
                selection.set_aabb(new_aabb);
            }
            PasteOutcome::Pasted { voxels: stamp.voxel_count() }
        },
        None => PasteOutcome::BelowFloor,
    }
}

/// The anchor [`resolve_paste_anchor`] picks.
pub open spec fn resolve_anchor(stamp: Stamp, cursor_hit: Option<IVec3>, selection: Selection) -> IVec3 {
    match cursor_hit {
        Some(c) => c,
        None => match selection.aabb {
            Some(a) => a.min,
            None => stamp.origin,
        },
    }
}

} // verus!
