use roxel::geom::IVec3;
use roxel::grid::VoxelGrid;
use roxel::history::History;
use roxel::move_drag::{move_drag_step, MoveDragAction, MoveDragEvent, MoveDragState};
use roxel::select::Selection;

const RED: [u8; 4] = [255, 0, 0, 255];

fn quiet() -> MoveDragEvent {
    MoveDragEvent {
        on_move_tool: true,
        blocked: false,
        lmb_just: false,
        lmb_pressed: false,
        rmb_just: false,
        esc: false,
        shift: false,
        hit: None,
        aim: None,
    }
}

fn press_on(cell: IVec3) -> MoveDragEvent {
    MoveDragEvent {
        lmb_just: true,
        lmb_pressed: true,
        hit: Some((cell, IVec3::new(0, 1, 0), true)),
        aim: Some(cell),
        ..quiet()
    }
}

fn drag_to(t: IVec3) -> MoveDragEvent {
    MoveDragEvent { lmb_pressed: true, aim: Some(t), ..quiet() }
}

#[test]
fn drag_moves_a_picked_voxel_and_release_commits() {
    let mut g = VoxelGrid::default();
    g.set(IVec3::new(0, 0, 0), Some(RED));
    let mut h = History::new();
    let mut s = MoveDragState::new();
    let mut sel = Selection::default();
    assert_eq!(move_drag_step(&mut g, &mut h, &mut s, &mut sel, press_on(IVec3::new(0, 0, 0))), MoveDragAction::Started);
    assert!(sel.aabb.is_some());
    assert_eq!(move_drag_step(&mut g, &mut h, &mut s, &mut sel, drag_to(IVec3::new(2, 0, 0))), MoveDragAction::Moved);
    assert_eq!(g.get(IVec3::new(0, 0, 0)), None);
    assert_eq!(g.get(IVec3::new(2, 0, 0)), Some(RED));
    assert_eq!(sel.aabb.unwrap().min, IVec3::new(2, 0, 0));
    assert_eq!(move_drag_step(&mut g, &mut h, &mut s, &mut sel, drag_to(IVec3::new(3, 0, 1))), MoveDragAction::Moved);
    assert_eq!(g.count(), 1);
    assert_eq!(g.get(IVec3::new(3, 0, 1)), Some(RED));
    assert_eq!(move_drag_step(&mut g, &mut h, &mut s, &mut sel, quiet()), MoveDragAction::Committed);
    assert!(sel.aabb.is_none());
    assert_eq!(h.undo.len(), 1);
    h.undo(&mut g);
    assert_eq!(g.get(IVec3::new(0, 0, 0)), Some(RED));
    assert_eq!(g.count(), 1);
}

#[test]
fn escape_puts_everything_back() {
    let mut g = VoxelGrid::default();
    g.set(IVec3::new(0, 0, 0), Some(RED));
    let mut h = History::new();
    let mut s = MoveDragState::new();
    let mut sel = Selection::default();
    move_drag_step(&mut g, &mut h, &mut s, &mut sel, press_on(IVec3::new(0, 0, 0)));
    move_drag_step(&mut g, &mut h, &mut s, &mut sel, drag_to(IVec3::new(0, 0, 4)));
    assert_eq!(g.get(IVec3::new(0, 0, 4)), Some(RED));
    let esc = MoveDragEvent { esc: true, lmb_pressed: true, ..quiet() };
    assert_eq!(move_drag_step(&mut g, &mut h, &mut s, &mut sel, esc), MoveDragAction::Aborted);
    assert_eq!(g.get(IVec3::new(0, 0, 0)), Some(RED));
    assert_eq!(g.count(), 1);
    assert!(h.undo.is_empty());
    assert!(sel.aabb.is_none());
}

#[test]
fn drag_onto_another_voxel_is_refused() {
    let mut g = VoxelGrid::default();
    g.set(IVec3::new(0, 0, 0), Some(RED));
    g.set(IVec3::new(2, 0, 0), Some([0, 0, 255, 255]));
    let mut h = History::new();
    let mut s = MoveDragState::new();
    let mut sel = Selection::default();
    move_drag_step(&mut g, &mut h, &mut s, &mut sel, press_on(IVec3::new(0, 0, 0)));
    assert_eq!(move_drag_step(&mut g, &mut h, &mut s, &mut sel, drag_to(IVec3::new(2, 0, 0))), MoveDragAction::Nothing);
    assert_eq!(g.get(IVec3::new(0, 0, 0)), Some(RED));
    assert_eq!(g.get(IVec3::new(2, 0, 0)), Some([0, 0, 255, 255]));
    assert_eq!(move_drag_step(&mut g, &mut h, &mut s, &mut sel, drag_to(IVec3::new(1, 0, 0))), MoveDragAction::Moved);
    assert_eq!(g.get(IVec3::new(1, 0, 0)), Some(RED));
}

#[test]
fn click_outside_the_selection_starts_nothing() {
    let mut g = VoxelGrid::default();
    g.set(IVec3::new(5, 0, 5), Some(RED));
    let mut h = History::new();
    let mut s = MoveDragState::new();
    let mut sel = Selection::default();
    sel.set_aabb(roxel::select::SelectionAabb::from_corners(IVec3::new(0, 0, 0), IVec3::new(1, 1, 1)));
    assert_eq!(move_drag_step(&mut g, &mut h, &mut s, &mut sel, press_on(IVec3::new(5, 0, 5))), MoveDragAction::Nothing);
    assert!(!s.active);
}
