//! The move tool's drag, one frame at a time: a click on a selected voxel
//! (or on any voxel when nothing is selected) lifts the occupied selected
//! cells; dragging moves them along the picked face's plane inside one open
//! undo stroke, refusing offsets that would go below the floor or land on a
//! cell that is not itself moving; releasing commits the stroke; Esc, a
//! right click or leaving the tool puts everything back.

use crate::geom::{Color8, IVec3};
use crate::grid::VoxelGrid;
use crate::history::{committed, law_undo_restores, stroke_takes, History};
use crate::select::{
    gather_occupied, lands, lander, lemma_scan_lists, move_is_clear, move_is_clear_exec, moved, positions,
    shift_cells, shifted_box, write_move, Selection, SelectionAabb,
};
use crate::tools::constrain_move_delta;
use vstd::prelude::*;

verus! {

/// What the pointer and keys did this frame, for the move tool. The caller
/// picks and meets rays with planes (floating point) and hands over cells.
#[derive(Clone, Copy, Debug)]
pub struct MoveDragEvent {
    /// The move tool is the current tool.
    pub on_move_tool: bool,
    /// The pointer belongs to something else (a panel, the view gizmo, a
    /// camera modifier key).
    pub blocked: bool,
    pub lmb_just: bool,
    pub lmb_pressed: bool,
    pub rmb_just: bool,
    pub esc: bool,
    /// Shift held: the drag stays level.
    pub shift: bool,
    /// The picked cell, the normal of the face the ray entered by, and
    /// whether the cell holds a voxel.
    pub hit: Option<(IVec3, IVec3, bool)>,
    /// Where the ray meets the plane of the picked face (on the press), or
    /// the drag's anchor plane (while dragging).
    pub aim: Option<IVec3>,
}

/// What the caller does after a frame.
#[derive(Clone, Copy, Debug, PartialEq, Eq, Structural)]
pub enum MoveDragAction {
    Nothing,
    /// A drag began.
    Started,
    /// The lifted cells moved to a new offset.
    Moved,
    /// The drag ended and its stroke went onto the undo stack.
    Committed,
    /// The drag was abandoned and everything put back.
    Aborted,
}

/// A move drag in progress.
pub struct MoveDragState {
    pub active: bool,
    /// The cell the drag started on, on the anchor plane.
    pub start_cell: IVec3,
    /// The face-normal axis of the anchor plane.
    pub axis: usize,
    /// The offset the lifted cells sit at now.
    pub applied: IVec3,
    /// The lifted cells with their colors, as they were.
    pub originals: Vec<(IVec3, Color8)>,
    /// The selection box before the drag.
    pub original_aabb: SelectionAabb,
    /// The selection mask before the drag.
    pub original_cells: Option<Vec<IVec3>>,
    /// The drag moves one voxel picked without a selection.
    pub ad_hoc: bool,
    /// The cells before the drag.
    pub pre: Ghost<Map<IVec3, Color8>>,
}

/// The axis of a face normal.
pub open spec fn normal_axis(n: IVec3) -> usize {
    if n.x != 0 {
        0
    } else if n.y != 0 {
        1
    } else {
        2
    }
}

/// The offset a drag aimed at `t` asks for: the in-plane move from the
/// start, kept level while shift is held.
pub open spec fn drag_delta(s: MoveDragState, t: IVec3, shift: bool) -> IVec3 {
    let d = t.spec_sub(s.start_cell).spec_with(s.axis, 0);
    if shift {
        IVec3 { y: 0, ..d }
    } else {
        d
    }
}

/// The lifted cells, as a set.
pub open spec fn lifted(s: MoveDragState) -> Set<IVec3> {
    positions(s.originals@).to_set()
}

/// The selection while the lifted cells sit at offset `d`: the box shifted
/// by `d`, and the mask too when there was one.
pub open spec fn selection_at(s: MoveDragState, d: IVec3, sel: Selection) -> bool {
    &&& sel.aabb == Some(shifted_box(s.original_aabb, d))
    &&& s.original_cells matches Some(v) ==> sel.cells matches Some(w) && w@ == v@.map_values(
        |p: IVec3| p.spec_add(d),
    )
}

impl MoveDragState {
    /// No drag.
    pub fn new() -> (s: MoveDragState)
        ensures
            !s.active,
            s.axis == 0,
    {
        MoveDragState {
            active: false,
            start_cell: IVec3 { x: 0, y: 0, z: 0 },
            axis: 0,
            applied: IVec3 { x: 0, y: 0, z: 0 },
            originals: Vec::new(),
            original_aabb: SelectionAabb { min: IVec3 { x: 0, y: 0, z: 0 }, max: IVec3 { x: 0, y: 0, z: 0 } },
            original_cells: None,
            ad_hoc: false,
            pre: Ghost(Map::empty()),
        }
    }

    /// The drag flag matches the history's open stroke, which takes the
    /// cells before the drag to the lifted cells moved by the applied
    /// offset.
    pub open spec fn inv(&self, h: History, g: Map<IVec3, Color8>) -> bool {
        &&& self.axis < 3
        &&& self.active <==> h.current is Some
        &&& self.active ==> {
            &&& h.current matches Some(st) && stroke_takes(self.pre@, g, st.deltas@)
            &&& g == moved(self.pre@, lifted(*self), self.applied)
            &&& positions(self.originals@).no_duplicates()
            &&& forall|k: int|
                0 <= k < self.originals@.len() ==> self.pre@.contains_key((#[trigger] self.originals@[k]).0)
                    && self.originals@[k].1 == self.pre@[self.originals@[k].0]
            &&& forall|k: int| 0 <= k < self.originals@.len() ==> (#[trigger] self.originals@[k]).0.add_fits(self.applied)
            &&& forall|q: IVec3| #[trigger] self.pre@.contains_key(q) ==> q.y >= 0
            &&& self.pre@.dom().finite()
            &&& self.pre@.dom().len() + 2 * self.originals@.len() < u32::MAX
            &&& self.original_cells matches Some(v) ==> v@.no_duplicates()
        }
    }
}

/// The offsets a dragging frame computes stay in `i32`.
pub open spec fn drag_fits(s: MoveDragState, ev: MoveDragEvent) -> bool {
    s.active && ev.on_move_tool && !(ev.esc || ev.rmb_just) && ev.lmb_pressed ==> match ev.aim {
        None => true,
        Some(t) => {
            &&& t.sub_fits(s.start_cell)
            &&& s.original_aabb.min.add_fits(drag_delta(s, t, ev.shift))
            &&& s.original_aabb.max.add_fits(drag_delta(s, t, ev.shift))
            &&& forall|k: int| 0 <= k < s.originals@.len() ==> (#[trigger] s.originals@[k]).0.add_fits(drag_delta(s, t, ev.shift))
            &&& s.original_cells matches Some(v) ==> forall|i: int|
                0 <= i < v@.len() ==> (#[trigger] v@[i]).add_fits(drag_delta(s, t, ev.shift))
        },
    }
}

/// Puts the cells and the selection back as they were before the drag.
fn abort_drag(grid: &mut VoxelGrid, history: &mut History, state: &mut MoveDragState, selection: &mut Selection)
    requires
        old(grid).wf(),
        old(history).wf(),
        old(state).inv(*old(history), old(grid)@),
        old(state).active,
        old(grid)@.dom().len() + old(history).current->0.deltas@.len() < u32::MAX,
    ensures
        final(grid).wf(),
        final(history).wf(),
        final(grid)@ == old(state).pre@,
        final(history).current is None,
        final(history).undo@ == old(history).undo@,
        final(history).redo@ == old(history).redo@,
        !final(state).active,
        final(state).axis == old(state).axis,
        old(state).ad_hoc ==> final(selection).aabb is None && final(selection).cells is None,
        !old(state).ad_hoc ==> final(selection).aabb == Some(old(state).original_aabb) && final(selection).cells
            == old(state).original_cells,
{
    let ghost ds = history.current->0.deltas@;
    let ghost g0 = grid@;
    history.abort(grid);
    proof {
        law_undo_restores(state.pre@, g0, ds);
    }
    if state.ad_hoc {
        selection.clear();
    } else {
        selection.aabb = Some(state.original_aabb);
        selection.cells = state.original_cells.take();
        proof {
            assert(selection.cells == old(state).original_cells);
        }
    }
    state.active = false;
    state.ad_hoc = false;
}

/// A copy of the cells.
fn copy_cells(v: &Vec<IVec3>) -> (r: Vec<IVec3>)
    ensures
        r@ == v@,
{
    let mut r: Vec<IVec3> = Vec::new();
    let mut i: usize = 0;
    while i < v.len()
        invariant
            i <= v@.len(),
            r@ == v@.take(i as int),
        decreases v.len() - i,
    {
        r.push(v[i]);
        proof {
            assert(v@.take(i + 1) =~= v@.take(i as int).push(v@[i as int]));
        }
        i = i + 1;
    }
    proof {
        assert(v@.take(v@.len() as int) =~= v@);
    }
    r
}

/// One frame of the move tool. In order: leaving the tool, Esc or a right
/// click during a drag puts the cells and the selection back; with no drag,
/// an unblocked click on a voxel inside the selection (or on any voxel when
/// nothing is selected) lifts the occupied selected cells and opens a
/// stroke; while the button is held, an aim moves the lifted cells to the
/// in-plane offset from the start (level with shift), unless the offset is
/// the current one, takes the box below the floor, or lands a cell on one
/// that is not lifted; releasing the button commits the stroke. A frame the
/// grid's cell counter could not take changes nothing.
pub fn move_drag_step(
    grid: &mut VoxelGrid,
    history: &mut History,
    state: &mut MoveDragState,
    selection: &mut Selection,
    ev: MoveDragEvent,
) -> (act: MoveDragAction)
    requires
        old(grid).wf(),
        old(history).wf(),
        old(selection).wf(),
        old(state).inv(*old(history), old(grid)@),
        drag_fits(*old(state), ev),
    ensures
        final(grid).wf(),
        final(history).wf(),
        final(state).inv(*final(history), final(grid)@),
        act is Aborted ==> {
            &&& old(state).active && (!ev.on_move_tool || ev.esc || ev.rmb_just)
            &&& final(grid)@ == old(state).pre@
            &&& final(history).undo@ == old(history).undo@ && final(history).redo@ == old(history).redo@
            &&& old(state).ad_hoc ==> final(selection).aabb is None && final(selection).cells is None
            &&& !old(state).ad_hoc ==> final(selection).aabb == Some(old(state).original_aabb)
                && final(selection).cells == old(state).original_cells
        },
        old(state).active && (!ev.on_move_tool || ev.esc || ev.rmb_just) ==> act is Aborted || act is Nothing,
        act is Started ==> {
            &&& !old(state).active && ev.on_move_tool && ev.lmb_just && !ev.blocked
            &&& final(state).active && final(state).applied == (IVec3 { x: 0, y: 0, z: 0 })
            &&& final(state).pre@ == old(grid)@
            &&& final(grid)@ == old(grid)@
            &&& final(history).undo@ == old(history).undo@ && final(history).redo@ == old(history).redo@
            &&& ev.hit matches Some((cell, n, on_voxel)) && on_voxel && {
                &&& final(state).axis == normal_axis(n)
                &&& final(state).start_cell == (match ev.aim {
                    Some(t) => t,
                    None => cell,
                })
                &&& old(selection).aabb is None ==> final(state).ad_hoc && lifted(*final(state)) == set![cell]
                    .intersect(old(grid)@.dom()) && final(selection).aabb == Some(
                    SelectionAabb { min: cell, max: cell },
                )
                &&& old(selection).aabb is Some ==> !final(state).ad_hoc && old(selection).selected().contains(cell)
                    && lifted(*final(state)) == old(selection).selected().intersect(old(grid)@.dom())
                    && final(selection).aabb == old(selection).aabb && final(selection).cells
                    == old(selection).cells
            }
        },
        act is Moved ==> {
            &&& old(state).active && ev.on_move_tool && ev.lmb_pressed
            &&& ev.aim matches Some(t) && {
                let d = drag_delta(*old(state), t, ev.shift);
                &&& d != old(state).applied
                &&& old(state).original_aabb.min.y + d.y >= 0
                &&& move_is_clear(old(state).pre@, lifted(*old(state)), d)
                &&& final(state).applied == d
                &&& final(grid)@ == moved(old(state).pre@, lifted(*old(state)), d)
                &&& selection_at(*old(state), d, *final(selection))
            }
            &&& final(state).pre == old(state).pre
            &&& final(history).undo@ == old(history).undo@ && final(history).redo@ == old(history).redo@
        },
        act is Committed ==> {
            &&& old(state).active && ev.on_move_tool && !ev.esc && !ev.rmb_just && !ev.lmb_pressed
            &&& final(grid)@ == old(grid)@
            &&& !final(state).active
            &&& committed(old(history).undo@, old(history).redo@, *final(history), old(state).pre@, old(grid)@)
            &&& old(state).ad_hoc ==> final(selection).aabb is None && final(selection).cells is None
            &&& !old(state).ad_hoc ==> final(selection).aabb == old(selection).aabb && final(selection).cells
                == old(selection).cells
        },
        old(state).active && ev.on_move_tool && !ev.esc && !ev.rmb_just && !ev.lmb_pressed ==> act is Committed,
        act is Nothing ==> final(grid)@ == old(grid)@ && final(history).undo@ == old(history).undo@
            && final(history).redo@ == old(history).redo@ && final(state).active == old(state).active
            && final(state).applied == old(state).applied && final(state).pre == old(state).pre
            && final(selection).aabb == old(selection).aabb && final(selection).cells == old(selection).cells,
        final(selection).wf(),
{
    proof {
        grid.lemma_finite();
    }
    if !ev.on_move_tool || ev.esc || ev.rmb_just {
        if state.active {
            let n = match &history.current {
                Some(st) => st.deltas.len() as u64,
                None => 0,
            };
            if n >= 0xffff_ffff || grid.count() as u64 + n >= 0xffff_ffff {
                return MoveDragAction::Nothing;
            }
            abort_drag(grid, history, state, selection);
            return MoveDragAction::Aborted;
        }
        return MoveDragAction::Nothing;
    }
    if !state.active {
        if !ev.lmb_just || ev.blocked {
            return MoveDragAction::Nothing;
        }
        let (cell, n, on_voxel) = match ev.hit {
            Some(h) => h,
            None => {
                return MoveDragAction::Nothing;
            },
        };
        if !on_voxel {
            return MoveDragAction::Nothing;
        }
        let ghost pre = grid@;
        let (aabb, ad_hoc) = match selection.aabb {
            Some(a) => {
                if !selection.contains(cell) {
                    return MoveDragAction::Nothing;
                }
                (a, false)
            },
            None => (SelectionAabb::from_corners(cell, cell), true),
        };
        let ghost src_set = if ad_hoc {
            set![cell]
        } else {
            selection.selected()
        };
        let originals = match &selection.cells {
            Some(v) if !ad_hoc => gather_occupied(grid, v),
            _ => {
                let cells = aabb.iter_cells();
                proof {
                    lemma_scan_lists(cells@, aabb.cells());
                    if ad_hoc {
                        assert(aabb.min == cell && aabb.max == cell);
                        assert(aabb.cells() =~= set![cell]);
                    } else {
                        assert(selection.cells is None);
                    }
                    assert(cells@.to_set() =~= src_set);
                }
                gather_occupied(grid, &cells)
            },
        };
        let ghost ps = positions(originals@);
        proof {
            assert(ps.no_duplicates());
            assert forall|p: IVec3| #[trigger] ps.to_set().contains(p) <==> src_set.intersect(pre.dom()).contains(p) by {
                if ps.contains(p) {
                    let k = choose|k: int| 0 <= k < ps.len() && ps[k] == p;
                    assert(originals@[k].0 == p);
                }
            }
            assert(ps.to_set() =~= src_set.intersect(pre.dom()));
        }
        if originals.len() == 0 || originals.len() >= 0xffff_ffff || grid.count() as u64 + 2 * (originals.len() as u64)
            >= 0xffff_ffff {
            return MoveDragAction::Nothing;
        }
        history.begin();
        let original_cells = match &selection.cells {
            Some(v) => Some(copy_cells(v)),
            None => None,
        };
        state.active = true;
        state.start_cell = match ev.aim {
            Some(t) => t,
            None => cell,
        };
        state.axis = if n.x != 0 {
            0
        } else if n.y != 0 {
            1
        } else {
            2
        };
        state.applied = IVec3 { x: 0, y: 0, z: 0 };
        state.originals = originals;
        state.original_aabb = aabb;
        state.original_cells = original_cells;
        state.ad_hoc = ad_hoc;
        state.pre = Ghost(pre);
        if ad_hoc {
            selection.set_aabb(aabb);
        }
        proof {
            assert(stroke_takes(pre, grid@, history.current->0.deltas@));
            assert forall|k: int| 0 <= k < state.originals@.len() implies (#[trigger] state.originals@[k]).0.add_fits(
                state.applied,
            ) by {
            }
            lemma_moved_zero(pre, lifted(*state));
        }
        return MoveDragAction::Started;
    }
    if !ev.lmb_pressed {
        history.commit(Ghost(state.pre@), Ghost(grid@));
        if state.ad_hoc {
            selection.clear();
        }
        state.active = false;
        state.ad_hoc = false;
        return MoveDragAction::Committed;
    }
    let t = match ev.aim {
        Some(t) => t,
        None => {
            return MoveDragAction::Nothing;
        },
    };
    let d = constrain_move_delta(t.sub(state.start_cell), state.axis, ev.shift);
    if d == state.applied {
        return MoveDragAction::Nothing;
    }
    if (state.original_aabb.min.y as i64) + (d.y as i64) < 0 {
        return MoveDragAction::Nothing;
    }
    let nd = match &history.current {
        Some(st) => st.deltas.len() as u64,
        None => 0,
    };
    if nd >= 0xffff_ffff || grid.count() as u64 + nd >= 0xffff_ffff {
        return MoveDragAction::Nothing;
    }
    let ghost g0 = grid@;
    let ghost ds = history.current->0.deltas@;
    history.abort(grid);
    proof {
        law_undo_restores(state.pre@, g0, ds);
        assert(lifted(*state) == positions(state.originals@).to_set());
    }
    history.begin();
    proof {
        assert(stroke_takes(state.pre@, grid@, history.current->0.deltas@));
    }
    let clear = move_is_clear_exec(grid, &state.originals, d);
    if !clear {
        write_move(grid, history, &state.originals, state.applied, Ghost(state.pre@), Ghost(lifted(*state)));
        return MoveDragAction::Nothing;
    }
    write_move(grid, history, &state.originals, d, Ghost(state.pre@), Ghost(lifted(*state)));
    state.applied = d;
    selection.aabb = Some(SelectionAabb { min: state.original_aabb.min.add(d), max: state.original_aabb.max.add(d) });
    match &state.original_cells {
        Some(v) => {
            selection.cells = Some(shift_cells(v, d));
        },
        None => {},
    }
    MoveDragAction::Moved
}

/// Moving by nothing leaves the cells as they are.
proof fn lemma_moved_zero(m: Map<IVec3, Color8>, s: Set<IVec3>)
    requires
        s.subset_of(m.dom()),
        forall|q: IVec3| #[trigger] m.contains_key(q) ==> q.y >= 0,
    ensures
        moved(m, s, IVec3 { x: 0, y: 0, z: 0 }) == m,
{
    let z = IVec3 { x: 0, y: 0, z: 0 };
    let mm = moved(m, s, z);
    assert forall|q: IVec3| #[trigger] mm.contains_key(q) == m.contains_key(q) && (mm.contains_key(q) ==> mm[q] == m[q]) by {
        assert(q.spec_add(z) == q);
        if s.contains(q) {
            assert(lands(s, z, q));
            let l = lander(s, z, q);
            assert(l.spec_add(z) == l);
        } else if lands(s, z, q) {
            let l = choose|l: IVec3| s.contains(l) && l.spec_add(z) == q;
            assert(l.spec_add(z) == l);
        }
    }
    assert(mm =~= m);
}

} // verus!
