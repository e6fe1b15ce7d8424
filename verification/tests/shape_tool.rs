use roxel::geom::IVec3;
use roxel::grid::VoxelGrid;
use roxel::history::History;
use roxel::select::{select_commit, SelectPhase, SelectState, Selection, SelectionAabb, StrokeAnchor};
use roxel::shapes::ShapePrimitive;
use roxel::tools::{shape_commit, RecentColors, ShapeOptions, ShapePhase, ShapeState};

fn drag(c1: IVec3, c2: IVec3, thickness: i32) -> ShapeState {
    ShapeState {
        phase: Some(ShapePhase::Extrude),
        anchor: Some(StrokeAnchor { axis: 1, target_layer: c1.y }),
        normal_sign: 1,
        corner1: Some(c1),
        corner2: Some(c2),
        thickness,
    }
}

#[test]
fn shape_commit_fills_footprint_as_one_stroke() {
    let mut grid = VoxelGrid::default();
    let mut history = History::default();
    let mut recent = RecentColors::default();
    let mut state = drag(IVec3::new(0, 0, 0), IVec3::new(1, 0, 1), 0);
    let red = [255, 0, 0, 255];
    shape_commit(
        &ShapeOptions { primitive: ShapePrimitive::Rectangle },
        &mut state,
        &mut grid,
        &mut history,
        &[red],
        &mut recent,
    );
    assert_eq!(grid.count(), 4);
    for p in [IVec3::new(0, 0, 0), IVec3::new(1, 0, 0), IVec3::new(0, 0, 1), IVec3::new(1, 0, 1)] {
        assert_eq!(grid.get(p), Some(red));
    }
    assert_eq!(history.undo.len(), 1);
    assert_eq!(recent.0, vec![red]);
    assert!(state.anchor.is_none() && state.phase.is_none());
    assert_eq!(state.thickness, 1);
    history.undo(&mut grid);
    assert_eq!(grid.count(), 0);
}

#[test]
fn shape_commit_extrudes_and_skips_cells_below_floor() {
    let mut grid = VoxelGrid::default();
    let mut history = History::default();
    let mut recent = RecentColors::default();
    // Negative thickness digs into the surface, through the floor.
    let mut state = drag(IVec3::new(0, 0, 0), IVec3::new(0, 0, 0), -2);
    let c = [1, 2, 3, 255];
    shape_commit(
        &ShapeOptions { primitive: ShapePrimitive::Rectangle },
        &mut state,
        &mut grid,
        &mut history,
        &[c],
        &mut recent,
    );
    assert_eq!(grid.count(), 1);
    assert_eq!(grid.get(IVec3::new(0, 0, 0)), Some(c));
}

#[test]
fn shape_commit_without_corners_only_resets() {
    let mut grid = VoxelGrid::default();
    let mut history = History::default();
    let mut recent = RecentColors::default();
    let mut state = ShapeState { corner2: None, ..drag(IVec3::new(0, 0, 0), IVec3::new(3, 0, 3), 0) };
    shape_commit(
        &ShapeOptions::default(),
        &mut state,
        &mut grid,
        &mut history,
        &[[9, 9, 9, 255]],
        &mut recent,
    );
    assert_eq!(grid.count(), 0);
    assert!(history.undo.is_empty());
    assert!(recent.0.is_empty());
    assert!(state.corner1.is_none());
}

#[test]
fn shape_commit_line_uses_pool_colors_once_each() {
    let mut grid = VoxelGrid::default();
    let mut history = History::default();
    let mut recent = RecentColors::default();
    let mut state = drag(IVec3::new(0, 2, 0), IVec3::new(7, 2, 0), 0);
    let pool = [[10, 0, 0, 255], [0, 10, 0, 255]];
    shape_commit(
        &ShapeOptions { primitive: ShapePrimitive::Line },
        &mut state,
        &mut grid,
        &mut history,
        &pool,
        &mut recent,
    );
    assert_eq!(grid.count(), 8);
    let mut seen = recent.0.clone();
    seen.sort();
    seen.dedup();
    assert_eq!(seen.len(), recent.0.len());
    for c in &recent.0 {
        assert!(pool.contains(c));
    }
}

#[test]
fn select_commit_selects_dragged_box_and_resets() {
    let mut state = SelectState {
        phase: SelectPhase::Extrude,
        anchor: Some(StrokeAnchor { axis: 1, target_layer: 5 }),
        corner1: Some(IVec3::new(0, 5, 0)),
        corner2: Some(IVec3::new(2, 5, 2)),
        normal_sign: 1,
        thickness: 3,
        last_press_cell: None,
    };
    let mut sel = Selection::default();
    select_commit(&mut state, &mut sel);
    assert_eq!(sel.aabb, Some(SelectionAabb { min: IVec3::new(0, 5, 0), max: IVec3::new(2, 8, 2) }));
    assert!(sel.cells.is_none());
    assert_eq!(state.phase, SelectPhase::Idle);
    assert_eq!(state.thickness, 1);
}

#[test]
fn select_commit_without_anchor_keeps_selection() {
    let mut state = SelectState::default();
    let mut sel = Selection::default();
    sel.set_aabb(SelectionAabb { min: IVec3::new(1, 1, 1), max: IVec3::new(2, 2, 2) });
    select_commit(&mut state, &mut sel);
    assert_eq!(sel.aabb, Some(SelectionAabb { min: IVec3::new(1, 1, 1), max: IVec3::new(2, 2, 2) }));
}
