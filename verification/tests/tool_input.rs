use roxel::geom::IVec3;
use roxel::grid::VoxelGrid;
use roxel::history::History;
use roxel::tool_input::{tool_step, StrokeState, Tool, ToolAction, ToolEvent, ToolHit};

const RED: [u8; 4] = [255, 0, 0, 255];

fn ev() -> ToolEvent {
    ToolEvent {
        blocked: false,
        hit: None,
        drag_target: None,
        lmb_just: false,
        lmb_pressed: false,
        lmb_released: false,
        shift: false,
        alt: false,
    }
}

fn ground_hit(x: i32, z: i32) -> ToolHit {
    ToolHit { cell: IVec3::new(x, -1, z), normal: IVec3::new(0, 1, 0), on_voxel: false }
}

#[test]
fn brush_stroke_paints_a_dragged_line_and_release_commits_it() {
    let mut g = VoxelGrid::default();
    let mut h = History::new();
    let mut s = StrokeState::new();
    let pool = [RED];
    let press = ToolEvent {
        hit: Some(ground_hit(0, 0)),
        drag_target: Some(IVec3::new(0, 0, 0)),
        lmb_just: true,
        lmb_pressed: true,
        ..ev()
    };
    assert!(matches!(tool_step(&mut g, &mut h, &mut s, Tool::Brush, &pool, press), ToolAction::Stroked));
    assert!(s.stroking);
    assert_eq!(g.get(IVec3::new(0, 0, 0)), Some(RED));
    let drag = ToolEvent { drag_target: Some(IVec3::new(3, 0, 0)), lmb_pressed: true, ..ev() };
    assert!(matches!(tool_step(&mut g, &mut h, &mut s, Tool::Brush, &pool, drag), ToolAction::Stroked));
    assert_eq!(g.count(), 4);
    assert_eq!(s.last_placed, Some(IVec3::new(3, 0, 0)));
    let release = ToolEvent { lmb_released: true, ..ev() };
    assert!(matches!(tool_step(&mut g, &mut h, &mut s, Tool::Brush, &pool, release), ToolAction::StrokeEnded));
    assert!(!s.stroking);
    assert_eq!(s.last_placed, Some(IVec3::new(3, 0, 0)));
    assert_eq!(h.undo.len(), 1);
    h.undo(&mut g);
    assert_eq!(g.count(), 0);
}

#[test]
fn shift_click_draws_a_line_from_the_last_placed_cell() {
    let mut g = VoxelGrid::default();
    let mut h = History::new();
    let mut s = StrokeState::new();
    let pool = [RED];
    s.last_placed = Some(IVec3::new(0, 0, 0));
    let click = ToolEvent { hit: Some(ground_hit(4, 2)), lmb_just: true, lmb_pressed: true, shift: true, ..ev() };
    assert!(matches!(tool_step(&mut g, &mut h, &mut s, Tool::Brush, &pool, click), ToolAction::LineDrawn));
    assert_eq!(g.count(), 5);
    for c in [IVec3::new(0, 0, 0), IVec3::new(2, 0, 1), IVec3::new(4, 0, 2)] {
        assert_eq!(g.get(c), Some(RED));
    }
    assert_eq!(s.last_placed, Some(IVec3::new(4, 0, 2)));
    assert!(!s.stroking);
    assert_eq!(h.undo.len(), 1);
}

#[test]
fn shift_click_erase_clears_only_occupied_line_cells() {
    let mut g = VoxelGrid::default();
    for x in [0, 2, 3] {
        g.set(IVec3::new(x, 0, 0), Some([1, 1, 1, 255]));
    }
    let mut h = History::new();
    let mut s = StrokeState::new();
    s.last_placed = Some(IVec3::new(0, 0, 0));
    let hit = ToolHit { cell: IVec3::new(3, 0, 0), normal: IVec3::new(0, 1, 0), on_voxel: true };
    let click = ToolEvent { hit: Some(hit), lmb_just: true, lmb_pressed: true, shift: true, ..ev() };
    assert!(matches!(tool_step(&mut g, &mut h, &mut s, Tool::Erase, &[RED], click), ToolAction::LineDrawn));
    assert_eq!(g.count(), 0);
    assert_eq!(h.undo.len(), 1);
    assert_eq!(h.undo[0].deltas.len(), 3);
}

#[test]
fn recolor_stroke_skips_empty_cells() {
    let mut g = VoxelGrid::default();
    g.set(IVec3::new(0, 0, 0), Some([1, 1, 1, 255]));
    g.set(IVec3::new(2, 0, 0), Some([1, 1, 1, 255]));
    let mut h = History::new();
    let mut s = StrokeState::new();
    let hit = ToolHit { cell: IVec3::new(0, 0, 0), normal: IVec3::new(0, 1, 0), on_voxel: true };
    let press = ToolEvent {
        hit: Some(hit),
        drag_target: Some(IVec3::new(0, 0, 0)),
        lmb_just: true,
        lmb_pressed: true,
        ..ev()
    };
    tool_step(&mut g, &mut h, &mut s, Tool::Paint, &[RED], press);
    let drag = ToolEvent { drag_target: Some(IVec3::new(2, 0, 0)), lmb_pressed: true, ..ev() };
    tool_step(&mut g, &mut h, &mut s, Tool::Paint, &[RED], drag);
    assert_eq!(g.count(), 2);
    assert_eq!(g.get(IVec3::new(0, 0, 0)), Some(RED));
    assert_eq!(g.get(IVec3::new(1, 0, 0)), None);
    assert_eq!(g.get(IVec3::new(2, 0, 0)), Some(RED));
}

#[test]
fn eyedropper_reads_the_voxel_and_leaves_the_grid() {
    let mut g = VoxelGrid::default();
    g.set(IVec3::new(1, 2, 3), Some([9, 8, 7, 255]));
    let mut h = History::new();
    let mut s = StrokeState::new();
    let hit = ToolHit { cell: IVec3::new(1, 2, 3), normal: IVec3::new(1, 0, 0), on_voxel: true };
    let click = ToolEvent { hit: Some(hit), lmb_just: true, lmb_pressed: true, alt: true, ..ev() };
    match tool_step(&mut g, &mut h, &mut s, Tool::Eyedropper, &[RED], click) {
        ToolAction::Picked { color, restore_tool } => {
            assert_eq!(color, Some([9, 8, 7, 255]));
            assert!(!restore_tool);
        }
        _ => panic!("expected a pick"),
    }
    assert_eq!(g.count(), 1);
    assert!(h.undo.is_empty());
}

#[test]
fn blocked_pointer_does_nothing() {
    let mut g = VoxelGrid::default();
    let mut h = History::new();
    let mut s = StrokeState::new();
    let press = ToolEvent {
        blocked: true,
        hit: Some(ground_hit(0, 0)),
        drag_target: Some(IVec3::new(0, 0, 0)),
        lmb_just: true,
        lmb_pressed: true,
        ..ev()
    };
    assert!(matches!(tool_step(&mut g, &mut h, &mut s, Tool::Brush, &[RED], press), ToolAction::Nothing));
    assert_eq!(g.count(), 0);
    assert!(!s.stroking);
}
