use roxel::clipboard::{
    copy_selection, cut_selection, execute_paste, paste_stamp, pasted_mask, resolve_paste_anchor,
    PasteOutcome, Stamp,
};
use roxel::geom::{Color8, IVec3};
use roxel::grid::VoxelGrid;
use roxel::history::History;
use roxel::select::{Selection, SelectionAabb};
use std::collections::HashSet;

fn fill(grid: &mut VoxelGrid, cells: &[(IVec3, Color8)]) {
    for (p, c) in cells {
        grid.set(*p, Some(*c));
    }
}

fn red() -> Color8 {
    [255, 0, 0, 255]
}

fn green() -> Color8 {
    [0, 255, 0, 255]
}

fn sample_stamp() -> Stamp {
    Stamp {
        cells: vec![(IVec3::new(0, 0, 0), red())],
        origin: IVec3::new(0, 0, 0),
        aabb: SelectionAabb::from_corners(IVec3::new(0, 0, 0), IVec3::new(0, 0, 0)),
    }
}

#[test]
fn anchor_prefers_cursor_over_selection_and_origin() {
    let stamp = sample_stamp();
    let mut sel = Selection::default();
    sel.set_aabb(SelectionAabb::from_corners(
        IVec3::new(10, 0, 10),
        IVec3::new(10, 0, 10),
    ));
    let anchor = resolve_paste_anchor(&stamp, Some(IVec3::new(4, 2, 6)), &sel);
    assert_eq!(anchor, IVec3::new(4, 2, 6));
}

#[test]
fn anchor_falls_back_to_selection_when_no_cursor() {
    let stamp = sample_stamp();
    let mut sel = Selection::default();
    sel.set_aabb(SelectionAabb::from_corners(
        IVec3::new(7, 0, 7),
        IVec3::new(8, 0, 8),
    ));
    let anchor = resolve_paste_anchor(&stamp, None, &sel);
    assert_eq!(anchor, IVec3::new(7, 0, 7));
}

#[test]
fn anchor_falls_back_to_stamp_origin_with_no_cursor_or_selection() {
    let stamp = Stamp {
        cells: vec![(IVec3::new(3, 4, 5), red())],
        origin: IVec3::new(3, 4, 5),
        aabb: SelectionAabb::from_corners(IVec3::new(3, 4, 5), IVec3::new(3, 4, 5)),
    };
    let sel = Selection::default();
    let anchor = resolve_paste_anchor(&stamp, None, &sel);
    assert_eq!(anchor, IVec3::new(3, 4, 5));
}

#[test]
fn copy_returns_none_when_no_selection() {
    let grid = VoxelGrid::default();
    let sel = Selection::default();
    assert!(copy_selection(&grid, &sel).is_none());
}

#[test]
fn copy_returns_none_when_selection_empty_of_voxels() {
    let grid = VoxelGrid::default();
    let mut sel = Selection::default();
    sel.set_aabb(SelectionAabb::from_corners(
        IVec3::new(0, 0, 0),
        IVec3::new(2, 2, 2),
    ));
    assert!(copy_selection(&grid, &sel).is_none());
}

#[test]
fn copy_captures_aabb_voxels_with_origin_at_min() {
    let mut grid = VoxelGrid::default();
    fill(
        &mut grid,
        &[(IVec3::new(2, 0, 2), red()), (IVec3::new(3, 0, 2), green())],
    );
    let mut sel = Selection::default();
    sel.set_aabb(SelectionAabb::from_corners(
        IVec3::new(2, 0, 2),
        IVec3::new(3, 0, 2),
    ));
    let stamp = copy_selection(&grid, &sel).expect("stamp");
    assert_eq!(stamp.origin, IVec3::new(2, 0, 2));
    assert_eq!(stamp.cells.len(), 2);
}

#[test]
fn copy_respects_cell_mask() {
    let mut grid = VoxelGrid::default();
    fill(
        &mut grid,
        &[
            (IVec3::new(0, 0, 0), red()),
            (IVec3::new(1, 0, 0), red()),
            (IVec3::new(2, 0, 0), red()),
        ],
    );
    let mut sel = Selection::default();
    let mask: Vec<IVec3> = vec![IVec3::new(0, 0, 0), IVec3::new(2, 0, 0)];
    sel.set_cells(mask);
    let stamp = copy_selection(&grid, &sel).expect("stamp");
    assert_eq!(stamp.cells.len(), 2);
    let coords: HashSet<IVec3> = stamp.cells.iter().map(|(p, _)| *p).collect();
    assert!(coords.contains(&IVec3::new(0, 0, 0)));
    assert!(coords.contains(&IVec3::new(2, 0, 0)));
    assert!(!coords.contains(&IVec3::new(1, 0, 0)));
}

#[test]
fn cut_returns_stamp_and_clears_source() {
    let mut grid = VoxelGrid::default();
    let mut history = History::default();
    fill(
        &mut grid,
        &[(IVec3::new(0, 0, 0), red()), (IVec3::new(1, 0, 0), red())],
    );
    let mut sel = Selection::default();
    sel.set_aabb(SelectionAabb::from_corners(
        IVec3::new(0, 0, 0),
        IVec3::new(1, 0, 0),
    ));
    let stamp = cut_selection(&mut grid, &mut history, &sel).expect("stamp");
    assert_eq!(stamp.cells.len(), 2);
    assert!(grid.get(IVec3::new(0, 0, 0)).is_none());
    assert!(grid.get(IVec3::new(1, 0, 0)).is_none());
}

#[test]
fn cut_then_undo_restores_voxels() {
    let mut grid = VoxelGrid::default();
    let mut history = History::default();
    fill(&mut grid, &[(IVec3::new(0, 0, 0), red())]);
    let mut sel = Selection::default();
    sel.set_aabb(SelectionAabb::from_corners(
        IVec3::new(0, 0, 0),
        IVec3::new(0, 0, 0),
    ));
    cut_selection(&mut grid, &mut history, &sel).expect("stamp");
    history.undo(&mut grid);
    assert_eq!(grid.get(IVec3::new(0, 0, 0)), Some(red()));
}

#[test]
fn paste_offsets_voxels_by_anchor_delta() {
    let mut grid = VoxelGrid::default();
    let mut history = History::default();
    let stamp = Stamp {
        cells: vec![(IVec3::new(0, 0, 0), red()), (IVec3::new(1, 0, 0), green())],
        origin: IVec3::new(0, 0, 0),
        aabb: SelectionAabb::from_corners(IVec3::new(0, 0, 0), IVec3::new(1, 0, 0)),
    };
    let new =
        paste_stamp(&mut grid, &mut history, &stamp, IVec3::new(5, 0, 5)).expect("new aabb");
    assert_eq!(new.min, IVec3::new(5, 0, 5));
    assert_eq!(grid.get(IVec3::new(5, 0, 5)), Some(red()));
    assert_eq!(grid.get(IVec3::new(6, 0, 5)), Some(green()));
}

#[test]
fn paste_in_place_is_identity() {
    let mut grid = VoxelGrid::default();
    let mut history = History::default();
    fill(&mut grid, &[(IVec3::new(3, 0, 3), red())]);
    let mut sel = Selection::default();
    sel.set_aabb(SelectionAabb::from_corners(
        IVec3::new(3, 0, 3),
        IVec3::new(3, 0, 3),
    ));
    let stamp = copy_selection(&grid, &sel).expect("stamp");
    paste_stamp(&mut grid, &mut history, &stamp, stamp.origin).expect("ok");
    assert_eq!(grid.get(IVec3::new(3, 0, 3)), Some(red()));
}

#[test]
fn paste_below_floor_is_refused() {
    let mut grid = VoxelGrid::default();
    let mut history = History::default();
    let stamp = Stamp {
        cells: vec![(IVec3::new(0, 0, 0), red())],
        origin: IVec3::new(0, 0, 0),
        aabb: SelectionAabb::from_corners(IVec3::new(0, 0, 0), IVec3::new(0, 0, 0)),
    };
    assert!(paste_stamp(&mut grid, &mut history, &stamp, IVec3::new(0, -1, 0)).is_none());
    assert!(grid.get(IVec3::new(0, 0, 0)).is_none());
}

#[test]
fn paste_overwrites_destination() {
    let mut grid = VoxelGrid::default();
    let mut history = History::default();
    fill(&mut grid, &[(IVec3::new(5, 0, 5), green())]);
    let stamp = Stamp {
        cells: vec![(IVec3::new(0, 0, 0), red())],
        origin: IVec3::new(0, 0, 0),
        aabb: SelectionAabb::from_corners(IVec3::new(0, 0, 0), IVec3::new(0, 0, 0)),
    };
    paste_stamp(&mut grid, &mut history, &stamp, IVec3::new(5, 0, 5)).expect("ok");
    assert_eq!(grid.get(IVec3::new(5, 0, 5)), Some(red()));
}

#[test]
fn paste_then_undo_clears_pasted_voxels() {
    let mut grid = VoxelGrid::default();
    let mut history = History::default();
    let stamp = Stamp {
        cells: vec![(IVec3::new(0, 0, 0), red()), (IVec3::new(1, 0, 0), red())],
        origin: IVec3::new(0, 0, 0),
        aabb: SelectionAabb::from_corners(IVec3::new(0, 0, 0), IVec3::new(1, 0, 0)),
    };
    paste_stamp(&mut grid, &mut history, &stamp, IVec3::new(2, 0, 0)).expect("ok");
    history.undo(&mut grid);
    assert!(grid.get(IVec3::new(2, 0, 0)).is_none());
    assert!(grid.get(IVec3::new(3, 0, 0)).is_none());
}

#[test]
fn execute_paste_updates_aabb_selection_and_emits_toast() {
    let mut grid = VoxelGrid::default();
    let mut history = History::default();
    let mut selection = Selection::default();
    let stamp = Stamp {
        cells: vec![(IVec3::new(0, 0, 0), red()), (IVec3::new(1, 0, 0), red())],
        origin: IVec3::new(0, 0, 0),
        aabb: SelectionAabb::from_corners(IVec3::new(0, 0, 0), IVec3::new(1, 0, 0)),
    };
    let outcome = execute_paste(
        &mut grid,
        &mut history,
        &mut selection,
        &stamp,
        Some(IVec3::new(5, 0, 5)),
    );
    assert_eq!(grid.get(IVec3::new(5, 0, 5)), Some(red()));
    assert_eq!(grid.get(IVec3::new(6, 0, 5)), Some(red()));
    assert_eq!(selection.aabb.unwrap().min, IVec3::new(5, 0, 5));
    assert!(selection.cells.is_none());
    assert_eq!(outcome, PasteOutcome::Pasted { voxels: 2 });
}

#[test]
fn execute_paste_preserves_mask_shape() {
    let mut grid = VoxelGrid::default();
    let mut history = History::default();
    let mut selection = Selection::default();
    selection.set_cells(vec![IVec3::new(0, 0, 0)]);
    let stamp = Stamp {
        cells: vec![(IVec3::new(0, 0, 0), red())],
        origin: IVec3::new(0, 0, 0),
        aabb: SelectionAabb::from_corners(IVec3::new(0, 0, 0), IVec3::new(0, 0, 0)),
    };
    let outcome = execute_paste(
        &mut grid,
        &mut history,
        &mut selection,
        &stamp,
        Some(IVec3::new(2, 0, 2)),
    );
    assert_eq!(outcome, PasteOutcome::Pasted { voxels: 1 });
    let mask = selection.cells.expect("mask retained");
    assert!(mask.contains(&IVec3::new(2, 0, 2)));
    assert_eq!(mask.len(), 1);
}

#[test]
fn execute_paste_below_floor_emits_error_toast() {
    let mut grid = VoxelGrid::default();
    let mut history = History::default();
    let mut selection = Selection::default();
    let stamp = Stamp {
        cells: vec![(IVec3::new(0, 0, 0), red())],
        origin: IVec3::new(0, 0, 0),
        aabb: SelectionAabb::from_corners(IVec3::new(0, 0, 0), IVec3::new(0, 0, 0)),
    };
    let outcome = execute_paste(
        &mut grid,
        &mut history,
        &mut selection,
        &stamp,
        Some(IVec3::new(0, -1, 0)),
    );
    assert!(grid.get(IVec3::new(0, 0, 0)).is_none());
    assert_eq!(outcome, PasteOutcome::BelowFloor);
}

#[test]
fn pasted_mask_offsets_cells() {
    let stamp = Stamp {
        cells: vec![(IVec3::new(0, 0, 0), red()), (IVec3::new(2, 0, 0), red())],
        origin: IVec3::new(0, 0, 0),
        aabb: SelectionAabb::from_corners(IVec3::new(0, 0, 0), IVec3::new(2, 0, 0)),
    };
    let mask = pasted_mask(&stamp, IVec3::new(5, 0, 5));
    assert!(mask.contains(&IVec3::new(5, 0, 5)));
    assert!(mask.contains(&IVec3::new(7, 0, 5)));
    assert_eq!(mask.len(), 2);
}
