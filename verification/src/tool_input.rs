//! What the brush, erase, recolor and eyedropper tools do with the pointer,
//! one frame at a time. The caller picks (a ray march in floating point) and
//! hands over the cells it found; the step edits the grid inside undo
//! strokes and says what else to do.

use crate::geom::{Color8, IVec3};
use crate::grid::{changes_marked, grid_set, lemma_marks_chain, lemma_no_change_marked, VoxelGrid};
use crate::history::{committed, stroke_takes, History};
use crate::tools::{axis_lock, line3d, line_point, major_extent, sample_color, spec_axis_lock, spec_sample_color};
use vstd::prelude::*;

verus! {

/// The editing tools.
#[derive(Clone, Copy, PartialEq, Eq, Debug, Structural)]
pub enum Tool {
    Brush,
    Erase,
    Paint,
    Eyedropper,
    Shape,
    Select,
    Move,
}

/// A pick result: the cell under the pointer, the face normal it was entered
/// through, and whether the cell holds a voxel (otherwise it is the ground).
#[derive(Clone, Copy, Debug)]
pub struct ToolHit {
    pub cell: IVec3,
    pub normal: IVec3,
    pub on_voxel: bool,
}

/// What the pointer did this frame.
#[derive(Clone, Copy, Debug)]
pub struct ToolEvent {
    /// The pointer belongs to something else this frame (a panel, the view
    /// gizmo, a camera modifier key, or no ray at all).
    pub blocked: bool,
    /// The pick against the live grid.
    pub hit: Option<ToolHit>,
    /// The cell an open stroke aims at this frame: the pick against the
    /// grid as it was before the stroke, else the point on the stroke's
    /// anchor plane.
    pub drag_target: Option<IVec3>,
    pub lmb_just: bool,
    pub lmb_pressed: bool,
    pub lmb_released: bool,
    pub shift: bool,
    pub alt: bool,
}

/// A stroke in progress.
pub struct StrokeState {
    /// A drag stroke is open.
    pub stroking: bool,
    /// The last cell the tool placed; shift+click draws a line from it.
    pub last_placed: Option<IVec3>,
    /// The cell the open stroke started on.
    pub origin: Option<IVec3>,
    /// The face-normal axis the stroke is anchored on.
    pub axis: usize,
    /// The cells as they were when the open stroke began.
    pub pre: Ghost<Map<IVec3, Color8>>,
}

/// What the caller does after a step.
#[derive(Clone, Copy, Debug)]
pub enum ToolAction {
    Nothing,
    /// The open stroke was closed onto the undo stack.
    StrokeEnded,
    /// The eyedropper read `color` (none over empty space); the caller makes
    /// it current and, when `restore_tool`, returns to the previous tool.
    Picked { color: Option<Color8>, restore_tool: bool },
    /// A shift+click line was drawn as one undo stroke.
    LineDrawn,
    /// The open stroke painted this frame's cells.
    Stroked,
}

/// A pick the step can use: a unit face normal and a neighbour cell that
/// fits in `i32`.
pub open spec fn hit_ok(h: ToolHit) -> bool {
    &&& -1 <= h.normal.x <= 1 && -1 <= h.normal.y <= 1 && -1 <= h.normal.z <= 1
    &&& i32::MIN <= h.cell.x + h.normal.x <= i32::MAX
    &&& i32::MIN <= h.cell.y + h.normal.y <= i32::MAX
    &&& i32::MIN <= h.cell.z + h.normal.z <= i32::MAX
}

/// The empty cell in front of the picked face.
pub open spec fn adjacent(h: ToolHit) -> IVec3 {
    IVec3 { x: (h.cell.x + h.normal.x) as i32, y: (h.cell.y + h.normal.y) as i32, z: (h.cell.z + h.normal.z) as i32 }
}

/// The axis of a face normal.
pub open spec fn normal_axis(n: IVec3) -> usize {
    if n.x != 0 {
        0
    } else if n.y != 0 {
        1
    } else {
        2
    }
}

/// One cell of a tool's path applied to the cells `m`: the brush sets its
/// sampled color, erase clears an occupied cell, recolor repaints an
/// occupied cell; nothing happens below the floor.
pub open spec fn paint_cell(m: Map<IVec3, Color8>, tool: Tool, p: IVec3, pool: Seq<Color8>) -> Map<IVec3, Color8> {
    match tool {
        Tool::Brush => grid_set(m, p, Some(spec_sample_color(p, pool))),
        Tool::Erase => if m.contains_key(p) {
            grid_set(m, p, None)
        } else {
            m
        },
        Tool::Paint => if m.contains_key(p) {
            grid_set(m, p, Some(spec_sample_color(p, pool)))
        } else {
            m
        },
        _ => m,
    }
}

/// The cells of a path applied one after another.
pub open spec fn paint_path(m: Map<IVec3, Color8>, tool: Tool, cells: Seq<IVec3>, pool: Seq<Color8>) -> Map<IVec3, Color8>
    decreases cells.len(),
{
    if cells.len() == 0 {
        m
    } else {
        paint_cell(paint_path(m, tool, cells.drop_last(), pool), tool, cells.last(), pool)
    }
}

/// The last cell of a path the tool placed, starting from `prev`: every
/// cell at or above the floor for the brush and erase, only occupied cells
/// for recolor.
pub open spec fn path_last(m: Map<IVec3, Color8>, tool: Tool, cells: Seq<IVec3>, pool: Seq<Color8>, prev: Option<IVec3>) -> Option<IVec3>
    decreases cells.len(),
{
    if cells.len() == 0 {
        prev
    } else {
        let before = path_last(m, tool, cells.drop_last(), pool, prev);
        let p = cells.last();
        if p.y < 0 {
            before
        } else if tool == Tool::Paint && !paint_path(m, tool, cells.drop_last(), pool).contains_key(p) {
            before
        } else {
            Some(p)
        }
    }
}

/// The cells of the digital line from `a` to `b`, both included.
pub open spec fn line_cells(a: IVec3, b: IVec3) -> Seq<IVec3> {
    Seq::new((major_extent(a, b) + 1) as nat, |k: int| line_point(a, b, k))
}

/// Where shift+click draws to: the cell in front of the face for the brush,
/// the picked voxel for erase and recolor.
pub open spec fn line_target(tool: Tool, hit: Option<ToolHit>) -> Option<IVec3> {
    match hit {
        None => None,
        Some(h) => match tool {
            Tool::Brush => Some(adjacent(h)),
            Tool::Erase | Tool::Paint => if h.on_voxel {
                Some(h.cell)
            } else {
                None
            },
            _ => None,
        },
    }
}

/// The cell a stroke starts on.
pub open spec fn start_cell(tool: Tool, h: ToolHit) -> IVec3 {
    if tool == Tool::Brush {
        adjacent(h)
    } else {
        h.cell
    }
}

/// Where this frame's drag aims: the given cell, pulled onto a straight line
/// from the stroke's start while shift is held; `None` below the floor.
pub open spec fn drag_aim(s_origin: Option<IVec3>, axis: usize, ev: ToolEvent) -> Option<IVec3> {
    match ev.drag_target {
        None => None,
        Some(t) => {
            let t2 = if ev.shift && s_origin is Some {
                spec_axis_lock(s_origin->0, t, axis)
            } else {
                t
            };
            if t2.y < 0 {
                None
            } else {
                Some(t2)
            }
        },
    }
}

/// The cells this frame's drag covers: the line from the last placed cell
/// to the aim, or the aim alone.
pub open spec fn drag_cells(last: Option<IVec3>, aim: IVec3) -> Seq<IVec3> {
    match last {
        Some(f) => if f != aim {
            line_cells(f, aim)
        } else {
            seq![aim]
        },
        None => seq![aim],
    }
}

/// The tools a step acts on.
pub open spec fn handled(tool: Tool) -> bool {
    tool == Tool::Brush || tool == Tool::Erase || tool == Tool::Paint || tool == Tool::Eyedropper
}

/// Whether a release closes the open stroke this frame.
pub open spec fn ends_stroke(s: StrokeState, ev: ToolEvent) -> bool {
    s.stroking && (ev.lmb_released || !ev.lmb_pressed)
}

/// The eyedropper's reading: the voxel under the pointer, if any.
pub open spec fn picked_color(g: Map<IVec3, Color8>, hit: Option<ToolHit>) -> Option<Color8> {
    match hit {
        Some(h) => if h.on_voxel {
            crate::grid::map_get(g, h.cell)
        } else {
            None
        },
        None => None,
    }
}

/// The drag part of a step, from stroke state `s` (already started if this
/// frame's click started it): the aim is painted along the path from the
/// last placed cell, unless there is no aim or the counter has no room.
pub open spec fn drag_spec(
    s: StrokeState,
    h: History,
    g: Map<IVec3, Color8>,
    tool: Tool,
    pool: Seq<Color8>,
    ev: ToolEvent,
    sf: StrokeState,
    hf: History,
    gf: Map<IVec3, Color8>,
    act: ToolAction,
) -> bool {
    &&& hf.undo@ == h.undo@
    &&& hf.redo@ == h.redo@
    &&& sf.stroking == s.stroking && sf.origin == s.origin && sf.axis == s.axis && sf.pre == s.pre
    &&& match drag_aim(s.origin, s.axis, ev) {
        None => gf == g && sf.last_placed == s.last_placed && act is Nothing,
        Some(aim) => {
            let cells = drag_cells(s.last_placed, aim);
            if g.dom().len() + cells.len() >= u32::MAX {
                gf == g && sf.last_placed == s.last_placed && act is Nothing
            } else {
                &&& gf == paint_path(g, tool, cells, pool)
                &&& sf.last_placed == path_last(g, tool, cells, pool, s.last_placed)
                &&& act is Stroked
            }
        },
    }
}

/// A step after any release was handled, from stroke state `s` and history
/// `h`, to `sf`, `hf` and the cells `gf`.
pub open spec fn press_spec(
    s: StrokeState,
    h: History,
    g: Map<IVec3, Color8>,
    tool: Tool,
    pool: Seq<Color8>,
    ev: ToolEvent,
    sf: StrokeState,
    hf: History,
    gf: Map<IVec3, Color8>,
    act: ToolAction,
) -> bool {
    if ev.blocked || !handled(tool) {
        sf == s && hf == h && gf == g && act is Nothing
    } else if tool == Tool::Eyedropper {
        &&& sf == s && hf == h && gf == g
        &&& if ev.lmb_just {
            act == ToolAction::Picked { color: picked_color(g, ev.hit), restore_tool: !ev.alt }
        } else {
            act is Nothing
        }
    } else if ev.lmb_just && ev.shift && s.last_placed is Some {
        let from = s.last_placed->0;
        match line_target(tool, ev.hit) {
            Some(t) => if t.y >= 0 && g.dom().len() + line_cells(from, t).len() < u32::MAX {
                &&& gf == paint_path(g, tool, line_cells(from, t), pool)
                &&& committed(h.undo@, h.redo@, hf, g, gf)
                &&& sf.last_placed == Some(t)
                &&& sf.stroking == s.stroking && sf.origin == s.origin && sf.axis == s.axis && sf.pre == s.pre
                &&& act is LineDrawn
            } else {
                sf == s && hf == h && gf == g && act is Nothing
            },
            None => sf == s && hf == h && gf == g && act is Nothing,
        }
    } else if ev.lmb_just {
        match ev.hit {
            None => sf == s && hf == h && gf == g && act is Nothing,
            Some(hh) => exists|s2: StrokeState|
                #![trigger drag_spec(s2, h, g, tool, pool, ev, sf, hf, gf, act)]
                {
                    &&& s2.stroking && s2.last_placed is None
                    &&& s2.origin == Some(start_cell(tool, hh))
                    &&& s2.axis == normal_axis(hh.normal)
                    &&& s2.pre@ == g
                    &&& drag_spec(s2, h, g, tool, pool, ev, sf, hf, gf, act)
                },
        }
    } else if s.stroking {
        drag_spec(s, h, g, tool, pool, ev, sf, hf, gf, act)
    } else {
        sf == s && hf == h && gf == g && act is Nothing
    }
}

/// One step from `s`, `h`, `g` to `sf`, `hf`, `gf`: a release first closes
/// the open stroke (committing it from the cells it began on), then the
/// rest of the step runs from there.
pub open spec fn tool_step_spec(
    s: StrokeState,
    h: History,
    g: Map<IVec3, Color8>,
    tool: Tool,
    pool: Seq<Color8>,
    ev: ToolEvent,
    sf: StrokeState,
    hf: History,
    gf: Map<IVec3, Color8>,
    act: ToolAction,
) -> bool {
    let ending = ends_stroke(s, ev);
    exists|h1: History, s1: StrokeState, a: ToolAction|
        #![trigger press_spec(s1, h1, g, tool, pool, ev, sf, hf, gf, a)]
        {
            &&& press_spec(s1, h1, g, tool, pool, ev, sf, hf, gf, a)
            &&& ending ==> committed(h.undo@, h.redo@, h1, s.pre@, g) && !s1.stroking && s1.origin is None
                && s1.last_placed == s.last_placed && s1.axis == s.axis
            &&& !ending ==> h1 == h && s1 == s
            &&& act == if ending && a is Nothing {
                ToolAction::StrokeEnded
            } else {
                a
            }
        }
}

impl StrokeState {
    /// No stroke open, nothing placed yet.
    pub fn new() -> (s: StrokeState)
        ensures
            !s.stroking,
            s.last_placed is None,
            s.origin is None,
            s.axis == 0,
    {
        StrokeState { stroking: false, last_placed: None, origin: None, axis: 0, pre: Ghost(Map::empty()) }
    }

    /// The stroke flag matches the history's open stroke, which takes the
    /// cells from where they were when it began to `m`.
    pub open spec fn inv(&self, h: History, m: Map<IVec3, Color8>) -> bool {
        &&& self.axis < 3
        &&& self.stroking <==> h.current is Some
        &&& h.current matches Some(st) ==> stroke_takes(self.pre@, m, st.deltas@)
    }
}

/// Writes a path into the open stroke, cell by cell.
fn write_path(
    grid: &mut VoxelGrid,
    history: &mut History,
    tool: Tool,
    pool: &[Color8],
    cells: &Vec<IVec3>,
    last: &mut Option<IVec3>,
)
    requires
        old(grid).wf(),
        old(history).wf(),
        old(history).current is Some,
        tool == Tool::Brush || tool == Tool::Erase || tool == Tool::Paint,
        pool@.len() > 0,
        old(grid)@.dom().len() + cells@.len() < u32::MAX,
    ensures
        final(grid).wf(),
        final(history).wf(),
        old(grid).dirty_view().subset_of(final(grid).dirty_view()),
        changes_marked(old(grid)@, final(grid)@, final(grid).dirty_view()),
        final(history).undo@ == old(history).undo@,
        final(history).redo@ == old(history).redo@,
        final(history).current is Some,
        forall|pre: Map<IVec3, Color8>| #[trigger]
            stroke_takes(pre, old(grid)@, old(history).current->0.deltas@) ==> stroke_takes(
                pre,
                final(grid)@,
                final(history).current->0.deltas@,
            ),
        final(grid)@ == paint_path(old(grid)@, tool, cells@, pool@),
        *final(last) == path_last(old(grid)@, tool, cells@, pool@, *old(last)),
{
    let ghost g0 = grid@;
    let ghost ds0 = history.current->0.deltas@;
    let ghost l0 = *last;
    let ghost cs = cells@;
    let ghost d0 = grid.dirty_view();
    proof {
        grid.lemma_finite();
        assert(cs.take(0) =~= Seq::<IVec3>::empty());
        lemma_no_change_marked(g0, d0);
    }
    let mut i: usize = 0;
    while i < cells.len()
        invariant
            grid.wf(),
            history.wf(),
            history.undo@ == old(history).undo@,
            history.redo@ == old(history).redo@,
            history.current is Some,
            forall|pre: Map<IVec3, Color8>| #[trigger]
                stroke_takes(pre, g0, ds0) ==> stroke_takes(pre, grid@, history.current->0.deltas@),
            tool == Tool::Brush || tool == Tool::Erase || tool == Tool::Paint,
            pool@.len() > 0,
            cs == cells@,
            i <= cs.len(),
            g0.dom().finite(),
            g0.dom().len() + cs.len() < u32::MAX,
            grid@.dom().finite(),
            grid@.dom().len() <= g0.dom().len() + i,
            grid@ == paint_path(g0, tool, cs.take(i as int), pool@),
            *last == path_last(g0, tool, cs.take(i as int), pool@, l0),
            d0.subset_of(grid.dirty_view()),
            changes_marked(g0, grid@, grid.dirty_view()),
        decreases cs.len() - i,
    {
        let p = cells[i];
        let ghost gi = grid@;
        let ghost di = grid.dirty_view();
        proof {
            assert(cs.take(i + 1).drop_last() =~= cs.take(i as int));
            assert(cs.take(i + 1).last() == p);
            crate::history::lemma_grid_set_len(gi, p, None);
            crate::history::lemma_grid_set_len(gi, p, Some(spec_sample_color(p, pool@)));
        }
        if p.y >= 0 {
            match tool {
                Tool::Brush => {
                    let c = sample_color(p, pool);
                    history.record(grid, p, Some(c));
                    *last = Some(p);
                },
                Tool::Erase => {
                    if grid.get(p).is_some() {
                        history.record(grid, p, None);
                    }
                    *last = Some(p);
                },
                _ => {
                    if grid.get(p).is_some() {
                        let c = sample_color(p, pool);
                        history.record(grid, p, Some(c));
                        *last = Some(p);
                    }
                },
            }
        }
        proof {
            if changes_marked(gi, grid@, grid.dirty_view()) && di.subset_of(grid.dirty_view()) {
                lemma_marks_chain(g0, gi, grid@, di, grid.dirty_view());
            } else {
                lemma_no_change_marked(gi, di);
            }
            if p.y < 0 {
                assert(grid_set(gi, p, None) == gi);
                assert(grid_set(gi, p, Some(spec_sample_color(p, pool@))) == gi);
            }
        }
        i = i + 1;
    }
    proof {
        assert(cs.take(cs.len() as int) =~= cs);
    }
}

/// Closes the open stroke onto the undo stack.
fn end_stroke(grid: &VoxelGrid, history: &mut History, stroke: &mut StrokeState)
    requires
        grid.wf(),
        old(history).wf(),
        old(stroke).inv(*old(history), grid@),
        old(stroke).stroking,
    ensures
        final(history).wf(),
        committed(old(history).undo@, old(history).redo@, *final(history), old(stroke).pre@, grid@),
        !final(stroke).stroking,
        final(stroke).origin is None,
        final(stroke).last_placed == old(stroke).last_placed,
        final(stroke).axis == old(stroke).axis,
        final(stroke).inv(*final(history), grid@),
{
    history.commit(Ghost(stroke.pre@), Ghost(grid@));
    stroke.stroking = false;
    stroke.origin = None;
}

/// Draws the shift+click line from `from` to `target` as one undo stroke.
/// A line the grid's cell counter could not take is not drawn.
fn draw_line(
    grid: &mut VoxelGrid,
    history: &mut History,
    tool: Tool,
    pool: &[Color8],
    from: IVec3,
    target: IVec3,
) -> (drawn: bool)
    requires
        old(grid).wf(),
        old(history).wf(),
        old(history).current is None,
        tool == Tool::Brush || tool == Tool::Erase || tool == Tool::Paint,
        pool@.len() > 0,
    ensures
        final(grid).wf(),
        final(history).wf(),
        old(grid).dirty_view().subset_of(final(grid).dirty_view()),
        changes_marked(old(grid)@, final(grid)@, final(grid).dirty_view()),
        final(history).current is None,
        drawn <==> old(grid)@.dom().len() + line_cells(from, target).len() < u32::MAX,
        drawn ==> final(grid)@ == paint_path(old(grid)@, tool, line_cells(from, target), pool@),
        drawn ==> committed(old(history).undo@, old(history).redo@, *final(history), old(grid)@, final(grid)@),
        !drawn ==> final(grid)@ == old(grid)@ && *final(history) == *old(history),
{
    let cells = line3d(from, target);
    proof {
        assert(cells@ =~= line_cells(from, target));
        grid.lemma_finite();
    }
    let n = grid.count() as u64;
    if n + cells.len() as u64 >= 0xffff_ffff {
        return false;
    }
    let ghost g0 = grid@;
    history.begin();
    let mut last: Option<IVec3> = None;
    proof {
        assert(stroke_takes(g0, g0, history.current->0.deltas@));
    }
    write_path(grid, history, tool, pool, &cells, &mut last);
    history.commit(Ghost(g0), Ghost(grid@));
    true
}

/// The part of a frame after any release was handled (see `tool_step`).
pub fn press_step(
    grid: &mut VoxelGrid,
    history: &mut History,
    stroke: &mut StrokeState,
    tool: Tool,
    pool: &[Color8],
    ev: ToolEvent,
) -> (act: ToolAction)
    requires
        old(grid).wf(),
        old(history).wf(),
        old(stroke).inv(*old(history), old(grid)@),
        pool@.len() > 0,
        ev.hit matches Some(h) ==> hit_ok(h),
        !(old(stroke).stroking && ev.lmb_just),
    ensures
        final(grid).wf(),
        final(history).wf(),
        old(grid).dirty_view().subset_of(final(grid).dirty_view()),
        changes_marked(old(grid)@, final(grid)@, final(grid).dirty_view()),
        final(stroke).inv(*final(history), final(grid)@),
        press_spec(*old(stroke), *old(history), old(grid)@, tool, pool@, ev, *final(stroke), *final(history), final(grid)@, act),
{
    let ghost g0 = grid@;
    let ghost h0 = *history;
    if ev.blocked || !(tool == Tool::Brush || tool == Tool::Erase || tool == Tool::Paint || tool == Tool::Eyedropper) {
        return ToolAction::Nothing;
    }
    if tool == Tool::Eyedropper {
        if ev.lmb_just {
            let color = match ev.hit {
                Some(h) => if h.on_voxel {
                    grid.get(h.cell)
                } else {
                    None
                },
                None => None,
            };
            return ToolAction::Picked { color, restore_tool: !ev.alt };
        }
        return ToolAction::Nothing;
    }
    if ev.lmb_just && ev.shift && stroke.last_placed.is_some() {
        let from = stroke.last_placed.unwrap();
        let target = match ev.hit {
            None => {
                return ToolAction::Nothing;
            },
            Some(h) => match tool {
                Tool::Brush => IVec3 { x: h.cell.x + h.normal.x, y: h.cell.y + h.normal.y, z: h.cell.z + h.normal.z },
                _ => {
                    if !h.on_voxel {
                        return ToolAction::Nothing;
                    }
                    h.cell
                },
            },
        };
        if target.y < 0 {
            return ToolAction::Nothing;
        }
        if draw_line(grid, history, tool, pool, from, target) {
            stroke.last_placed = Some(target);
            return ToolAction::LineDrawn;
        }
        return ToolAction::Nothing;
    }
    if ev.lmb_just {
        let h = match ev.hit {
            None => {
                return ToolAction::Nothing;
            },
            Some(h) => h,
        };
        let start = if tool == Tool::Brush {
            IVec3 { x: h.cell.x + h.normal.x, y: h.cell.y + h.normal.y, z: h.cell.z + h.normal.z }
        } else {
            h.cell
        };
        history.begin();
        stroke.stroking = true;
        stroke.last_placed = None;
        stroke.origin = Some(start);
        stroke.axis = if h.normal.x != 0 {
            0
        } else if h.normal.y != 0 {
            1
        } else {
            2
        };
        stroke.pre = Ghost(grid@);
        proof {
            assert(stroke_takes(grid@, grid@, history.current->0.deltas@));
        }
    }
    if !stroke.stroking {
        return ToolAction::Nothing;
    }
    let ghost s2 = *stroke;
    let r = drag_step(grid, history, stroke, tool, pool, ev);
    proof {
        assert(drag_spec(s2, h0, g0, tool, pool@, ev, *stroke, *history, grid@, r));
    }
    r
}

/// The drag part of a frame, with a stroke open.
fn drag_step(
    grid: &mut VoxelGrid,
    history: &mut History,
    stroke: &mut StrokeState,
    tool: Tool,
    pool: &[Color8],
    ev: ToolEvent,
) -> (act: ToolAction)
    requires
        old(grid).wf(),
        old(history).wf(),
        old(stroke).inv(*old(history), old(grid)@),
        old(stroke).stroking,
        tool == Tool::Brush || tool == Tool::Erase || tool == Tool::Paint,
        pool@.len() > 0,
    ensures
        final(grid).wf(),
        final(history).wf(),
        old(grid).dirty_view().subset_of(final(grid).dirty_view()),
        changes_marked(old(grid)@, final(grid)@, final(grid).dirty_view()),
        final(stroke).inv(*final(history), final(grid)@),
        drag_spec(*old(stroke), *old(history), old(grid)@, tool, pool@, ev, *final(stroke), *final(history), final(grid)@, act),
{
    let t = match ev.drag_target {
        None => {
            return ToolAction::Nothing;
        },
        Some(t) => t,
    };
    let aim = match stroke.origin {
        Some(o) => if ev.shift {
            axis_lock(o, t, stroke.axis)
        } else {
            t
        },
        None => t,
    };
    if aim.y < 0 {
        return ToolAction::Nothing;
    }
    let ghost last0 = stroke.last_placed;
    let cells = match stroke.last_placed {
        Some(f) => if f.x != aim.x || f.y != aim.y || f.z != aim.z {
            line3d(f, aim)
        } else {
            vec![aim]
        },
        None => vec![aim],
    };
    proof {
        assert(cells@ =~= drag_cells(last0, aim));
        grid.lemma_finite();
    }
    let n = grid.count() as u64;
    if n + cells.len() as u64 >= 0xffff_ffff {
        return ToolAction::Nothing;
    }
    let mut last = stroke.last_placed;
    write_path(grid, history, tool, pool, &cells, &mut last);
    stroke.last_placed = last;
    ToolAction::Stroked
}

/// One frame of the brush, erase, recolor and eyedropper tools (other tools
/// do nothing here). In order: a released button closes the open stroke; a
/// blocked pointer stops there; an eyedropper click reads the voxel under
/// the pointer; a shift+click draws a line from the last placed cell as one
/// stroke; a click starts a stroke on the picked cell; and while a stroke is
/// open its aim this frame is painted, joined to the last placed cell by a
/// line. A path the grid's cell counter could not take is skipped. A click
/// that begins comes after a frame with the button up, so it never finds a
/// stroke still open.
pub fn tool_step(
    grid: &mut VoxelGrid,
    history: &mut History,
    stroke: &mut StrokeState,
    tool: Tool,
    pool: &[Color8],
    ev: ToolEvent,
) -> (act: ToolAction)
    requires
        old(grid).wf(),
        old(history).wf(),
        old(stroke).inv(*old(history), old(grid)@),
        pool@.len() > 0,
        ev.hit matches Some(h) ==> hit_ok(h),
        old(stroke).stroking && ev.lmb_just ==> ev.lmb_released || !ev.lmb_pressed,
    ensures
        final(grid).wf(),
        final(history).wf(),
        old(grid).dirty_view().subset_of(final(grid).dirty_view()),
        changes_marked(old(grid)@, final(grid)@, final(grid).dirty_view()),
        final(stroke).inv(*final(history), final(grid)@),
        tool_step_spec(*old(stroke), *old(history), old(grid)@, tool, pool@, ev, *final(stroke), *final(history), final(grid)@, act),
{
    let ghost g0 = grid@;
    let ending = stroke.stroking && (ev.lmb_released || !ev.lmb_pressed);
    if ending {
        end_stroke(grid, history, stroke);
    }
    let ghost h1 = *history;
    let ghost s1 = *stroke;
    let a = press_step(grid, history, stroke, tool, pool, ev);
    proof {
        assert(press_spec(s1, h1, g0, tool, pool@, ev, *stroke, *history, grid@, a));
    }
    if ending {
        match a {
            ToolAction::Nothing => ToolAction::StrokeEnded,
            _ => a,
        }
    } else {
        a
    }
}

} // verus!
