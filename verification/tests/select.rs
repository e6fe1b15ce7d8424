use roxel::geom::{Color8, IVec3};
use roxel::grid::VoxelGrid;
use roxel::history::History;
use roxel::select::{
    aabb_of_cells, clear_aabb, clear_selection, connected_same_color, in_progress_aabb,
    move_selection, recolor_aabb, recolor_selection, silhouette_edges, SelectPhase, SelectState,
    Selection, SelectionAabb, StrokeAnchor,
};
use std::collections::HashSet;

fn fill_grid(grid: &mut VoxelGrid, color: Color8, points: &[IVec3]) {
    for p in points {
        grid.set(*p, Some(color));
    }
}

#[test]
fn select_all_selects_only_occupied_cells() {
    let mut grid = VoxelGrid::default();
    let c = [10, 20, 30, 255];
    grid.set(IVec3::new(-2, 0, 3), Some(c));
    grid.set(IVec3::new(5, 4, -1), Some(c));
    let cells: Vec<IVec3> = grid.iter_occupied().into_iter().map(|(p, _)| p).collect();
    let mut sel = Selection::default();
    sel.set_cells(cells);
    // Only the two occupied voxels are selected.
    assert!(sel.contains(IVec3::new(-2, 0, 3)));
    assert!(sel.contains(IVec3::new(5, 4, -1)));
    assert_eq!(sel.cells.as_ref().map(|c| c.len()), Some(2));
    // An empty cell inside the bounding hull is NOT selected.
    assert!(!sel.contains(IVec3::new(0, 0, 0)));
    // AABB hull still computed for marching-ants fallback.
    let aabb = sel.aabb.expect("hull");
    assert_eq!(aabb.min, IVec3::new(-2, 0, -1));
    assert_eq!(aabb.max, IVec3::new(5, 4, 3));
}

#[test]
fn select_all_on_empty_grid_selects_nothing() {
    let grid = VoxelGrid::default();
    let cells: Vec<IVec3> = grid.iter_occupied().into_iter().map(|(p, _)| p).collect();
    assert!(cells.is_empty());
}

#[test]
fn aabb_normalizes_min_max() {
    let a = IVec3::new(5, 2, 7);
    let b = IVec3::new(1, 8, 3);
    let s = SelectionAabb::from_corners(a, b);
    assert_eq!(s.min, IVec3::new(1, 2, 3));
    assert_eq!(s.max, IVec3::new(5, 8, 7));
}

#[test]
fn aabb_normalizes_when_corners_equal() {
    let p = IVec3::new(4, 4, 4);
    let s = SelectionAabb::from_corners(p, p);
    assert_eq!(s.min, p);
    assert_eq!(s.max, p);
}

#[test]
fn aabb_contains_boundary() {
    let s = SelectionAabb::from_corners(IVec3::new(0, 0, 0), IVec3::new(3, 3, 3));
    assert!(s.contains(s.min));
    assert!(s.contains(s.max));
    assert!(s.contains(IVec3::new(1, 2, 3)));
    assert!(!s.contains(IVec3::new(4, 0, 0)));
    assert!(!s.contains(IVec3::new(0, -1, 0)));
    assert!(!s.contains(IVec3::new(0, 0, 4)));
}

#[test]
fn aabb_iter_cell_count() {
    let s = SelectionAabb::from_corners(IVec3::new(0, 0, 0), IVec3::new(2, 3, 4));
    assert_eq!(s.cell_count(), 3 * 4 * 5);
    assert_eq!(s.iter_cells().len(), 3 * 4 * 5);
}

#[test]
fn aabb_iter_cells_unique() {
    let s = SelectionAabb::from_corners(IVec3::new(-1, -1, -1), IVec3::new(2, 2, 2));
    let set: HashSet<IVec3> = s.iter_cells().into_iter().collect();
    assert_eq!(set.len(), s.cell_count());
}

#[test]
fn aabb_single_cell_when_min_eq_max() {
    let p = IVec3::new(7, 8, 9);
    let s = SelectionAabb::from_corners(p, p);
    assert_eq!(s.cell_count(), 1);
    let cells: Vec<_> = s.iter_cells();
    assert_eq!(cells, vec![p]);
}

#[test]
fn clear_aabb_clears_only_inside_cells() {
    let mut grid = VoxelGrid::default();
    let red = [200, 0, 0, 255];
    fill_grid(
        &mut grid,
        red,
        &[
            IVec3::new(1, 1, 1),
            IVec3::new(2, 1, 1),
            IVec3::new(5, 5, 5),
        ],
    );
    let s = SelectionAabb::from_corners(IVec3::new(0, 0, 0), IVec3::new(3, 3, 3));
    let mut history = History::default();
    clear_aabb(&mut grid, &mut history, &s);
    assert!(grid.get(IVec3::new(1, 1, 1)).is_none());
    assert!(grid.get(IVec3::new(2, 1, 1)).is_none());
    assert_eq!(grid.get(IVec3::new(5, 5, 5)), Some(red));
}

#[test]
fn clear_aabb_leaves_empty_cells_empty() {
    let mut grid = VoxelGrid::default();
    let red = [200, 0, 0, 255];
    grid.set(IVec3::new(2, 2, 2), Some(red));
    let s = SelectionAabb::from_corners(IVec3::new(0, 0, 0), IVec3::new(3, 3, 3));
    let mut history = History::default();
    clear_aabb(&mut grid, &mut history, &s);
    for cell in s.iter_cells() {
        assert!(grid.get(cell).is_none(), "cell {cell:?} should be empty");
    }
}

#[test]
fn clear_aabb_undoable_as_single_stroke() {
    let mut grid = VoxelGrid::default();
    let red = [200, 0, 0, 255];
    let touched = [
        IVec3::new(1, 1, 1),
        IVec3::new(2, 1, 1),
        IVec3::new(3, 1, 1),
    ];
    fill_grid(&mut grid, red, &touched);
    let s = SelectionAabb::from_corners(IVec3::new(0, 0, 0), IVec3::new(4, 4, 4));
    let mut history = History::default();
    let before_strokes = history.undo.len();
    clear_aabb(&mut grid, &mut history, &s);
    assert_eq!(history.undo.len(), before_strokes + 1);
    history.undo(&mut grid);
    for cell in &touched {
        assert_eq!(grid.get(*cell), Some(red));
    }
}

#[test]
fn recolor_aabb_overwrites_non_empty_cells() {
    let mut grid = VoxelGrid::default();
    let red = [200, 0, 0, 255];
    let blue = [0, 0, 200, 255];
    fill_grid(&mut grid, red, &[IVec3::new(1, 1, 1), IVec3::new(2, 2, 2)]);
    let s = SelectionAabb::from_corners(IVec3::new(0, 0, 0), IVec3::new(3, 3, 3));
    let mut history = History::default();
    recolor_aabb(&mut grid, &mut history, &s, &[blue]);
    assert_eq!(grid.get(IVec3::new(1, 1, 1)), Some(blue));
    assert_eq!(grid.get(IVec3::new(2, 2, 2)), Some(blue));
}

#[test]
fn recolor_aabb_skips_empty_cells() {
    let mut grid = VoxelGrid::default();
    let red = [200, 0, 0, 255];
    let blue = [0, 0, 200, 255];
    grid.set(IVec3::new(1, 1, 1), Some(red));
    let s = SelectionAabb::from_corners(IVec3::new(0, 0, 0), IVec3::new(3, 3, 3));
    let mut history = History::default();
    recolor_aabb(&mut grid, &mut history, &s, &[blue]);
    assert_eq!(grid.get(IVec3::new(1, 1, 1)), Some(blue));
    // Every other cell in the AABB stays empty.
    for cell in s.iter_cells() {
        if cell == IVec3::new(1, 1, 1) {
            continue;
        }
        assert!(
            grid.get(cell).is_none(),
            "cell {cell:?} should remain empty"
        );
    }
}

#[test]
fn recolor_aabb_skips_outside_cells() {
    let mut grid = VoxelGrid::default();
    let red = [200, 0, 0, 255];
    let blue = [0, 0, 200, 255];
    grid.set(IVec3::new(5, 5, 5), Some(red));
    let s = SelectionAabb::from_corners(IVec3::new(0, 0, 0), IVec3::new(3, 3, 3));
    let mut history = History::default();
    recolor_aabb(&mut grid, &mut history, &s, &[blue]);
    assert_eq!(grid.get(IVec3::new(5, 5, 5)), Some(red));
}

#[test]
fn recolor_aabb_undoable_as_single_stroke() {
    let mut grid = VoxelGrid::default();
    let red = [200, 0, 0, 255];
    let blue = [0, 0, 200, 255];
    let touched = [
        IVec3::new(1, 1, 1),
        IVec3::new(2, 2, 2),
        IVec3::new(3, 1, 1),
    ];
    fill_grid(&mut grid, red, &touched);
    let s = SelectionAabb::from_corners(IVec3::new(0, 0, 0), IVec3::new(4, 4, 4));
    let mut history = History::default();
    let before_strokes = history.undo.len();
    recolor_aabb(&mut grid, &mut history, &s, &[blue]);
    assert_eq!(history.undo.len(), before_strokes + 1);
    history.undo(&mut grid);
    for cell in &touched {
        assert_eq!(grid.get(*cell), Some(red));
    }
}

#[test]
fn selection_default_has_no_aabb() {
    let sel = Selection::default();
    assert!(sel.aabb.is_none());
}

#[test]
fn move_selection_translates_voxels_and_updates_aabb() {
    let mut grid = VoxelGrid::default();
    let red = [200, 0, 0, 255];
    fill_grid(&mut grid, red, &[IVec3::new(1, 1, 1), IVec3::new(2, 1, 1)]);
    let mut selection = Selection {
        cells: None,
        aabb: Some(SelectionAabb::from_corners(
            IVec3::new(1, 1, 1),
            IVec3::new(2, 1, 1),
        )),
    };
    let mut history = History::default();
    assert!(move_selection(
        &mut grid,
        &mut history,
        &mut selection,
        IVec3::new(3, 0, 0)
    ));
    assert!(grid.get(IVec3::new(1, 1, 1)).is_none());
    assert!(grid.get(IVec3::new(2, 1, 1)).is_none());
    assert_eq!(grid.get(IVec3::new(4, 1, 1)), Some(red));
    assert_eq!(grid.get(IVec3::new(5, 1, 1)), Some(red));
    let aabb = selection.aabb.unwrap();
    assert_eq!(aabb.min, IVec3::new(4, 1, 1));
    assert_eq!(aabb.max, IVec3::new(5, 1, 1));
}

#[test]
fn move_selection_overlapping_translation_preserves_voxels() {
    let mut grid = VoxelGrid::default();
    let red = [200, 0, 0, 255];
    fill_grid(
        &mut grid,
        red,
        &[
            IVec3::new(1, 1, 1),
            IVec3::new(2, 1, 1),
            IVec3::new(3, 1, 1),
        ],
    );
    let mut selection = Selection {
        cells: None,
        aabb: Some(SelectionAabb::from_corners(
            IVec3::new(1, 1, 1),
            IVec3::new(3, 1, 1),
        )),
    };
    let mut history = History::default();
    // Shift by +1 along X — destination overlaps with source.
    assert!(move_selection(
        &mut grid,
        &mut history,
        &mut selection,
        IVec3::new(1, 0, 0)
    ));
    assert!(grid.get(IVec3::new(1, 1, 1)).is_none());
    assert_eq!(grid.get(IVec3::new(2, 1, 1)), Some(red));
    assert_eq!(grid.get(IVec3::new(3, 1, 1)), Some(red));
    assert_eq!(grid.get(IVec3::new(4, 1, 1)), Some(red));
}

#[test]
fn move_selection_refuses_when_destination_hits_unrelated_voxel() {
    let mut grid = VoxelGrid::default();
    let red = [200, 0, 0, 255];
    let blue = [0, 0, 200, 255];
    grid.set(IVec3::new(1, 1, 1), Some(red));
    // Obstacle one cell away — not in selection.
    grid.set(IVec3::new(2, 1, 1), Some(blue));
    let mut selection = Selection {
        cells: None,
        aabb: Some(SelectionAabb::from_corners(
            IVec3::new(1, 1, 1),
            IVec3::new(1, 1, 1),
        )),
    };
    let mut history = History::default();
    assert!(!move_selection(
        &mut grid,
        &mut history,
        &mut selection,
        IVec3::new(1, 0, 0)
    ));
    // Both voxels preserved, no stroke recorded.
    assert_eq!(grid.get(IVec3::new(1, 1, 1)), Some(red));
    assert_eq!(grid.get(IVec3::new(2, 1, 1)), Some(blue));
    assert!(history.undo.is_empty());
    assert_eq!(selection.aabb.unwrap().min, IVec3::new(1, 1, 1));
}

#[test]
fn move_selection_allows_overlapping_translation_within_self() {
    // Translation overlap with source set itself is allowed (the moving
    // selection sliding partly into its old footprint).
    let mut grid = VoxelGrid::default();
    let red = [200, 0, 0, 255];
    fill_grid(
        &mut grid,
        red,
        &[
            IVec3::new(1, 1, 1),
            IVec3::new(2, 1, 1),
            IVec3::new(3, 1, 1),
        ],
    );
    let mut selection = Selection {
        cells: None,
        aabb: Some(SelectionAabb::from_corners(
            IVec3::new(1, 1, 1),
            IVec3::new(3, 1, 1),
        )),
    };
    let mut history = History::default();
    assert!(move_selection(
        &mut grid,
        &mut history,
        &mut selection,
        IVec3::new(1, 0, 0)
    ));
}

#[test]
fn move_selection_below_floor_is_noop() {
    // Open world: the only hard bound is the floor at y = 0. A move that
    // would push the AABB below the floor is refused; arbitrary negative
    // X/Z is fine.
    let mut grid = VoxelGrid::default();
    let red = [200, 0, 0, 255];
    grid.set(IVec3::new(0, 0, 0), Some(red));
    let mut selection = Selection {
        cells: None,
        aabb: Some(SelectionAabb::from_corners(
            IVec3::new(0, 0, 0),
            IVec3::new(0, 0, 0),
        )),
    };
    let mut history = History::default();
    assert!(!move_selection(
        &mut grid,
        &mut history,
        &mut selection,
        IVec3::new(0, -1, 0)
    ));
    assert_eq!(grid.get(IVec3::new(0, 0, 0)), Some(red));
    assert_eq!(selection.aabb.unwrap().min, IVec3::new(0, 0, 0));
    assert!(history.undo.is_empty());
}

#[test]
fn move_selection_into_negative_x_succeeds() {
    let mut grid = VoxelGrid::default();
    let red = [200, 0, 0, 255];
    grid.set(IVec3::new(0, 0, 0), Some(red));
    let mut selection = Selection {
        cells: None,
        aabb: Some(SelectionAabb::from_corners(
            IVec3::new(0, 0, 0),
            IVec3::new(0, 0, 0),
        )),
    };
    let mut history = History::default();
    history.begin();
    assert!(move_selection(
        &mut grid,
        &mut history,
        &mut selection,
        IVec3::new(-5, 0, 0)
    ));
    history.end();
    assert_eq!(grid.get(IVec3::new(0, 0, 0)), None);
    assert_eq!(grid.get(IVec3::new(-5, 0, 0)), Some(red));
    assert_eq!(selection.aabb.unwrap().min, IVec3::new(-5, 0, 0));
}

#[test]
fn move_selection_zero_delta_is_noop() {
    let mut grid = VoxelGrid::default();
    grid.set(IVec3::new(1, 1, 1), Some([1, 2, 3, 255]));
    let mut selection = Selection {
        cells: None,
        aabb: Some(SelectionAabb::from_corners(
            IVec3::new(1, 1, 1),
            IVec3::new(1, 1, 1),
        )),
    };
    let mut history = History::default();
    assert!(!move_selection(
        &mut grid,
        &mut history,
        &mut selection,
        IVec3::new(0, 0, 0)
    ));
    assert!(history.undo.is_empty());
}

#[test]
fn move_selection_records_single_undoable_stroke() {
    let mut grid = VoxelGrid::default();
    let red = [200, 0, 0, 255];
    let pts = [
        IVec3::new(1, 1, 1),
        IVec3::new(2, 1, 1),
        IVec3::new(2, 2, 1),
    ];
    fill_grid(&mut grid, red, &pts);
    let mut selection = Selection {
        cells: None,
        aabb: Some(SelectionAabb::from_corners(
            IVec3::new(1, 1, 1),
            IVec3::new(2, 2, 1),
        )),
    };
    let mut history = History::default();
    assert!(move_selection(
        &mut grid,
        &mut history,
        &mut selection,
        IVec3::new(0, 0, 1)
    ));
    assert_eq!(history.undo.len(), 1);
    history.undo(&mut grid);
    for p in &pts {
        assert_eq!(grid.get(*p), Some(red));
    }
    for p in &pts {
        assert!(
            grid.get(p.add(IVec3::new(0, 0, 1))).is_none()
                || pts.contains(&p.add(IVec3::new(0, 0, 1)))
        );
    }
}

#[test]
fn move_selection_empty_selection_just_slides_aabb() {
    let mut grid = VoxelGrid::default();
    let mut selection = Selection {
        cells: None,
        aabb: Some(SelectionAabb::from_corners(
            IVec3::new(0, 0, 0),
            IVec3::new(2, 2, 2),
        )),
    };
    let mut history = History::default();
    assert!(move_selection(
        &mut grid,
        &mut history,
        &mut selection,
        IVec3::new(1, 0, 0)
    ));
    assert!(history.undo.is_empty());
    let aabb = selection.aabb.unwrap();
    assert_eq!(aabb.min, IVec3::new(1, 0, 0));
    assert_eq!(aabb.max, IVec3::new(3, 2, 2));
}

#[test]
fn in_progress_aabb_extrudes_positive_offset_in_normal_direction() {
    // Face-up pick: normal_sign = +1, target_layer = 5.
    let state = SelectState {
        phase: SelectPhase::Extrude,
        anchor: Some(StrokeAnchor {
            axis: 1,
            target_layer: 5,
        }),
        corner1: Some(IVec3::new(0, 5, 0)),
        corner2: Some(IVec3::new(2, 5, 2)),
        normal_sign: 1,
        thickness: 3,
        ..Default::default()
    };
    let aabb = in_progress_aabb(&state).unwrap();
    assert_eq!(aabb.min.y, 5);
    assert_eq!(aabb.max.y, 8);
}

#[test]
fn in_progress_aabb_extrudes_negative_offset_into_surface() {
    // Same pick but user drags the opposite direction.
    let state = SelectState {
        phase: SelectPhase::Extrude,
        anchor: Some(StrokeAnchor {
            axis: 1,
            target_layer: 5,
        }),
        corner1: Some(IVec3::new(0, 5, 0)),
        corner2: Some(IVec3::new(2, 5, 2)),
        normal_sign: 1,
        thickness: -3,
        ..Default::default()
    };
    let aabb = in_progress_aabb(&state).unwrap();
    assert_eq!(aabb.min.y, 2);
    assert_eq!(aabb.max.y, 5);
}

#[test]
fn in_progress_aabb_zero_offset_is_single_cell_thick() {
    let state = SelectState {
        phase: SelectPhase::Extrude,
        anchor: Some(StrokeAnchor {
            axis: 1,
            target_layer: 5,
        }),
        corner1: Some(IVec3::new(0, 5, 0)),
        corner2: Some(IVec3::new(2, 5, 2)),
        normal_sign: 1,
        thickness: 0,
        ..Default::default()
    };
    let aabb = in_progress_aabb(&state).unwrap();
    assert_eq!(aabb.min.y, 5);
    assert_eq!(aabb.max.y, 5);
}

                    #[test]
fn in_progress_aabb_picked_voxel_single_cell_selection() {
    // After select_input's Idle branch on a top-face pick of voxel (3,4,5):
    // target_layer == picked cell.y, corner1 == corner2 == picked cell,
    // thickness=0. AABB must equal the picked voxel exactly.
    let state = SelectState {
        phase: SelectPhase::Footprint,
        anchor: Some(StrokeAnchor {
            axis: 1,
            target_layer: 4,
        }),
        corner1: Some(IVec3::new(3, 4, 5)),
        corner2: Some(IVec3::new(3, 4, 5)),
        normal_sign: 1,
        thickness: 0,
        ..Default::default()
    };
    let aabb = in_progress_aabb(&state).unwrap();
    assert_eq!(aabb.min, IVec3::new(3, 4, 5));
    assert_eq!(aabb.max, IVec3::new(3, 4, 5));
}

#[test]
fn connected_same_color_returns_single_cell_when_isolated() {
    let mut grid = VoxelGrid::default();
    let red = [200, 0, 0, 255];
    grid.set(IVec3::new(5, 5, 5), Some(red));
    let cells = connected_same_color(&grid, IVec3::new(5, 5, 5));
    assert_eq!(cells, vec![IVec3::new(5, 5, 5)]);
}

#[test]
fn connected_same_color_walks_face_neighbors() {
    let mut grid = VoxelGrid::default();
    let red = [200, 0, 0, 255];
    let pts = [
        IVec3::new(0, 0, 0),
        IVec3::new(1, 0, 0),
        IVec3::new(2, 0, 0),
        IVec3::new(2, 1, 0),
        IVec3::new(2, 1, 1),
    ];
    fill_grid(&mut grid, red, &pts);
    let cells: HashSet<IVec3> = connected_same_color(&grid, IVec3::new(0, 0, 0))
        .into_iter()
        .collect();
    let expected: HashSet<IVec3> = pts.iter().copied().collect();
    assert_eq!(cells, expected);
}

#[test]
fn connected_same_color_excludes_diagonal_neighbor() {
    let mut grid = VoxelGrid::default();
    let red = [200, 0, 0, 255];
    // Two same-color voxels sharing only an edge — not face-connected.
    grid.set(IVec3::new(0, 0, 0), Some(red));
    grid.set(IVec3::new(1, 1, 0), Some(red));
    let cells = connected_same_color(&grid, IVec3::new(0, 0, 0));
    assert_eq!(cells, vec![IVec3::new(0, 0, 0)]);
}

#[test]
fn connected_same_color_stops_at_color_boundary() {
    let mut grid = VoxelGrid::default();
    let red = [200, 0, 0, 255];
    let blue = [0, 0, 200, 255];
    grid.set(IVec3::new(0, 0, 0), Some(red));
    grid.set(IVec3::new(1, 0, 0), Some(red));
    grid.set(IVec3::new(2, 0, 0), Some(blue));
    grid.set(IVec3::new(3, 0, 0), Some(red));
    let cells: HashSet<IVec3> = connected_same_color(&grid, IVec3::new(0, 0, 0))
        .into_iter()
        .collect();
    let expected: HashSet<IVec3> = [IVec3::new(0, 0, 0), IVec3::new(1, 0, 0)]
        .into_iter()
        .collect();
    assert_eq!(cells, expected);
}

#[test]
fn connected_same_color_empty_start_returns_empty() {
    let grid = VoxelGrid::default();
    assert!(connected_same_color(&grid, IVec3::new(0, 0, 0)).is_empty());
}

#[test]
fn connected_same_color_spans_negative_coords() {
    let mut grid = VoxelGrid::default();
    let red = [200, 0, 0, 255];
    let pts = [
        IVec3::new(-2, 0, -3),
        IVec3::new(-1, 0, -3),
        IVec3::new(0, 0, -3),
    ];
    fill_grid(&mut grid, red, &pts);
    let cells: HashSet<IVec3> = connected_same_color(&grid, IVec3::new(-1, 0, -3))
        .into_iter()
        .collect();
    let expected: HashSet<IVec3> = pts.iter().copied().collect();
    assert_eq!(cells, expected);
}

#[test]
fn aabb_of_cells_returns_none_for_empty() {
    assert!(aabb_of_cells(&[]).is_none());
}

#[test]
fn aabb_of_cells_bounds_extremes() {
    let cells = [
        IVec3::new(-2, 4, 3),
        IVec3::new(5, 0, -1),
        IVec3::new(1, 2, 7),
    ];
    let aabb = aabb_of_cells(&cells).unwrap();
    assert_eq!(aabb.min, IVec3::new(-2, 0, -1));
    assert_eq!(aabb.max, IVec3::new(5, 4, 7));
}

#[test]
fn in_progress_aabb_respects_negative_normal_sign() {
    // Pick on bottom face: normal_sign = -1, target_layer below the cube.
    let state = SelectState {
        phase: SelectPhase::Extrude,
        anchor: Some(StrokeAnchor {
            axis: 1,
            target_layer: 4,
        }),
        corner1: Some(IVec3::new(0, 4, 0)),
        corner2: Some(IVec3::new(2, 4, 2)),
        normal_sign: -1,
        thickness: 3,
        ..Default::default()
    };
    // Drag in normal direction (downward) extends min below target_layer.
    let aabb = in_progress_aabb(&state).unwrap();
    assert_eq!(aabb.min.y, 1);
    assert_eq!(aabb.max.y, 4);
}

#[test]
fn selection_set_cells_recomputes_aabb_hull() {
    let mut sel = Selection::default();
    let cells: Vec<IVec3> = vec![IVec3::new(1, 2, 3), IVec3::new(4, 0, -1)];
    sel.set_cells(cells);
    let aabb = sel.aabb.expect("aabb hull");
    assert_eq!(aabb.min, IVec3::new(1, 0, -1));
    assert_eq!(aabb.max, IVec3::new(4, 2, 3));
    assert!(sel.cells.is_some());
}

#[test]
fn selection_set_cells_empty_leaves_no_selection() {
    let mut sel = Selection::default();
    sel.set_cells(Vec::new());
    assert!(sel.aabb.is_none());
    assert!(sel.cells.is_none());
}

#[test]
fn selection_set_aabb_clears_cells() {
    let mut sel = Selection::default();
    sel.cells = Some(vec![IVec3::new(0, 0, 0)]);
    sel.set_aabb(SelectionAabb::from_corners(
        IVec3::new(0, 0, 0),
        IVec3::new(2, 2, 2),
    ));
    assert!(sel.cells.is_none());
}

#[test]
fn selection_contains_uses_mask_when_present() {
    let mut sel = Selection::default();
    sel.set_cells(
        [IVec3::new(0, 0, 0), IVec3::new(2, 0, 0)]
            .into_iter()
            .collect::<Vec<_>>(),
    );
    assert!(sel.contains(IVec3::new(0, 0, 0)));
    assert!(sel.contains(IVec3::new(2, 0, 0)));
    // (1,0,0) is inside the AABB hull but not in the mask.
    assert!(!sel.contains(IVec3::new(1, 0, 0)));
}

#[test]
fn clear_selection_with_mask_only_clears_masked_cells() {
    let mut grid = VoxelGrid::default();
    let red = [200, 0, 0, 255];
    let blue = [0, 0, 200, 255];
    grid.set(IVec3::new(0, 0, 0), Some(red));
    grid.set(IVec3::new(1, 0, 0), Some(blue));
    grid.set(IVec3::new(2, 0, 0), Some(red));
    let mut sel = Selection::default();
    sel.set_cells(
        [IVec3::new(0, 0, 0), IVec3::new(2, 0, 0)]
            .into_iter()
            .collect::<Vec<_>>(),
    );
    let mut history = History::default();
    clear_selection(&mut grid, &mut history, &sel);
    assert!(grid.get(IVec3::new(0, 0, 0)).is_none());
    assert_eq!(grid.get(IVec3::new(1, 0, 0)), Some(blue));
    assert!(grid.get(IVec3::new(2, 0, 0)).is_none());
}

#[test]
fn recolor_selection_with_mask_only_recolors_masked_cells() {
    let mut grid = VoxelGrid::default();
    let red = [200, 0, 0, 255];
    let blue = [0, 0, 200, 255];
    let green = [0, 200, 0, 255];
    grid.set(IVec3::new(0, 0, 0), Some(red));
    grid.set(IVec3::new(1, 0, 0), Some(blue));
    grid.set(IVec3::new(2, 0, 0), Some(red));
    let mut sel = Selection::default();
    sel.set_cells(
        [IVec3::new(0, 0, 0), IVec3::new(2, 0, 0)]
            .into_iter()
            .collect::<Vec<_>>(),
    );
    let mut history = History::default();
    recolor_selection(&mut grid, &mut history, &sel, &[green]);
    assert_eq!(grid.get(IVec3::new(0, 0, 0)), Some(green));
    assert_eq!(grid.get(IVec3::new(1, 0, 0)), Some(blue));
    assert_eq!(grid.get(IVec3::new(2, 0, 0)), Some(green));
}

#[test]
fn silhouette_edges_single_cell_emits_twelve_edges() {
    let mask: Vec<IVec3> = vec![IVec3::new(0, 0, 0)];
    let edges = silhouette_edges(&mask);
    assert_eq!(edges.len(), 12);
}

#[test]
fn silhouette_edges_two_face_adjacent_cells_drop_shared_face_perimeter() {
    // Two X-adjacent cubes share a face perpendicular to X. The 4 edges
    // bounding that shared face are coplanar boundaries on +Y / -Y / +Z /
    // -Z faces of the merged shape — they're not silhouette edges.
    let mask: Vec<IVec3> = vec![IVec3::new(0, 0, 0), IVec3::new(1, 0, 0)];
    let edges = silhouette_edges(&mask);
    // Two cubes dedupe to 20 raw lattice edges; the 4 edges on the shared
    // face plane (x=1) are K=2 same-column → dropped; remaining = 16.
    assert_eq!(edges.len(), 16);
    // Specifically the X-axis seam edges between the cubes shouldn't
    // appear (they were the only "inside seam" but X-axis edges live on
    // the +Y/+Z corners — actually the dropped edges are the 4 Y/Z edges
    // along the shared face plane at x=1).
    assert!(!edges.contains(&(1, IVec3::new(1, 0, 0))));
    assert!(!edges.contains(&(1, IVec3::new(1, 0, 1))));
    assert!(!edges.contains(&(2, IVec3::new(1, 0, 0))));
    assert!(!edges.contains(&(2, IVec3::new(1, 1, 0))));
}

#[test]
fn silhouette_edges_interior_cell_in_solid_block_has_no_edges_through_it() {
    // 3x3x3 block: the center cell at (1,1,1) sits fully inside. Every
    // edge of that cell has K=4 around it and must be dropped.
    let mut mask: Vec<IVec3> = Vec::new();
    for x in 0..3 {
        for y in 0..3 {
            for z in 0..3 {
                mask.push(IVec3::new(x, y, z));
            }
        }
    }
    let edges = silhouette_edges(&mask);
    // The 3x3x3 silhouette is the perimeter of each face = 8 corner edges
    // along each face → 12 outer edges of the bounding cube, each split
    // into 3 unit segments = 36 edges.
    assert_eq!(edges.len(), 36);
}

#[test]
fn silhouette_edges_diagonal_only_pair_keeps_saddle_edge() {
    // Two cells touching only at a single shared edge → K=2 diagonal at
    // that edge, K=1 elsewhere. Saddle edge must be drawn (twice, once
    // per cell, but deduped) — assert it appears.
    let mask: Vec<IVec3> = vec![IVec3::new(0, 0, 0), IVec3::new(1, 1, 0)];
    let edges = silhouette_edges(&mask);
    // The shared edge is the Z-axis edge at (1, 1, 0).
    assert!(edges.contains(&(2, IVec3::new(1, 1, 0))));
}

#[test]
fn move_selection_with_mask_shifts_only_masked_cells_and_mask() {
    let mut grid = VoxelGrid::default();
    let red = [200, 0, 0, 255];
    let blue = [0, 0, 200, 255];
    grid.set(IVec3::new(0, 0, 0), Some(red));
    grid.set(IVec3::new(1, 0, 0), Some(blue));
    grid.set(IVec3::new(2, 0, 0), Some(red));
    let mut sel = Selection::default();
    sel.set_cells(
        [IVec3::new(0, 0, 0), IVec3::new(2, 0, 0)]
            .into_iter()
            .collect::<Vec<_>>(),
    );
    let mut history = History::default();
    assert!(move_selection(
        &mut grid,
        &mut history,
        &mut sel,
        IVec3::new(0, 1, 0)
    ));
    // Originals cleared, destinations lit, neighbor blue untouched.
    assert!(grid.get(IVec3::new(0, 0, 0)).is_none());
    assert_eq!(grid.get(IVec3::new(1, 0, 0)), Some(blue));
    assert!(grid.get(IVec3::new(2, 0, 0)).is_none());
    assert_eq!(grid.get(IVec3::new(0, 1, 0)), Some(red));
    assert_eq!(grid.get(IVec3::new(2, 1, 0)), Some(red));
    // Mask shifted with the move.
    let cells = sel.cells.expect("mask retained");
    assert!(cells.contains(&IVec3::new(0, 1, 0)));
    assert!(cells.contains(&IVec3::new(2, 1, 0)));
    assert!(!cells.contains(&IVec3::new(0, 0, 0)));
}
