use roxel::geom::{Color8, IVec3};
use roxel::grid::VoxelGrid;
use roxel::history::History;
use roxel::resample::{apply_resample, plan_resample, ResampleOp};

const RED: Color8 = [200, 0, 0, 255];
const BLUE: Color8 = [0, 0, 200, 255];
const GREEN: Color8 = [0, 200, 0, 255];

#[test]
fn double_single_cell_becomes_eight() {
    let mut g = VoxelGrid::default();
    g.set(IVec3::new(1, 2, 3), Some(RED));
    let plan = plan_resample(&g, ResampleOp::Double);
    assert_eq!(plan.source_count, 1);
    assert_eq!(plan.result_count, 8);
    assert!(!plan.lossy);
    let mut writes: Vec<(i32, i32, i32)> = plan.cells_to_write.iter().map(|(p, _)| (p.x, p.y, p.z)).collect();
    writes.sort();
    let mut expected: Vec<(i32, i32, i32)> = Vec::new();
    for dx in 0..2 {
        for dy in 0..2 {
            for dz in 0..2 {
                expected.push((2 + dx, 4 + dy, 6 + dz));
            }
        }
    }
    expected.sort();
    assert_eq!(writes, expected);
    for (_, c) in &plan.cells_to_write {
        assert_eq!(*c, RED);
    }
    assert_eq!(plan.cells_to_clear, vec![IVec3::new(1, 2, 3)]);
}

#[test]
fn double_then_halve_round_trip_lossless() {
    let mut g = VoxelGrid::default();
    for x in 0..2 {
        for y in 0..2 {
            for z in 0..2 {
                g.set(IVec3::new(x, y, z), Some(RED));
            }
        }
    }
    let mut h = History::default();
    apply_resample(&mut g, &mut h, ResampleOp::Double);
    assert_eq!(g.count(), 64);
    apply_resample(&mut g, &mut h, ResampleOp::Halve);
    assert_eq!(g.count(), 8);
    for x in 0..2 {
        for y in 0..2 {
            for z in 0..2 {
                assert_eq!(g.get(IVec3::new(x, y, z)), Some(RED));
            }
        }
    }
}

#[test]
fn halve_majority_wins() {
    let mut g = VoxelGrid::default();
    g.set(IVec3::new(0, 0, 0), Some(RED));
    g.set(IVec3::new(1, 0, 0), Some(BLUE));
    g.set(IVec3::new(0, 1, 0), Some(BLUE));
    g.set(IVec3::new(1, 1, 0), Some(BLUE));
    let plan = plan_resample(&g, ResampleOp::Halve);
    assert_eq!(plan.cells_to_write, vec![(IVec3::new(0, 0, 0), BLUE)]);
    assert!(plan.lossy);
    assert_eq!(plan.source_count, 4);
    assert_eq!(plan.result_count, 1);
}

#[test]
fn halve_single_color_block_is_lossless() {
    let mut g = VoxelGrid::default();
    g.set(IVec3::new(2, 0, 2), Some(GREEN));
    g.set(IVec3::new(3, 1, 3), Some(GREEN));
    g.set(IVec3::new(-1, 0, 0), Some(RED));
    let plan = plan_resample(&g, ResampleOp::Halve);
    assert!(!plan.lossy);
    let mut w: Vec<((i32, i32, i32), Color8)> =
        plan.cells_to_write.iter().map(|(p, c)| ((p.x, p.y, p.z), *c)).collect();
    w.sort();
    assert_eq!(w, vec![((-1, 0, 0), RED), ((1, 0, 1), GREEN)]);
}

#[test]
fn halve_tie_goes_to_first_listed_color() {
    let mut g = VoxelGrid::default();
    g.set(IVec3::new(0, 0, 0), Some(RED));
    g.set(IVec3::new(1, 1, 1), Some(BLUE));
    let plan = plan_resample(&g, ResampleOp::Halve);
    let first = plan.cells_to_clear[0];
    let first_color = g.get(first).unwrap();
    assert_eq!(plan.cells_to_write, vec![(IVec3::new(0, 0, 0), first_color)]);
}

#[test]
fn resample_of_empty_grid_does_nothing() {
    let mut g = VoxelGrid::default();
    let mut h = History::default();
    assert!(apply_resample(&mut g, &mut h, ResampleOp::Double).is_none());
    assert!(h.undo.is_empty());
}

#[test]
fn resample_is_one_undo_step() {
    let mut g = VoxelGrid::default();
    g.set(IVec3::new(0, 0, 0), Some(RED));
    let mut h = History::default();
    apply_resample(&mut g, &mut h, ResampleOp::Double);
    assert_eq!(g.count(), 8);
    h.undo(&mut g);
    assert_eq!(g.count(), 1);
    assert_eq!(g.get(IVec3::new(0, 0, 0)), Some(RED));
}

#[test]
fn halve_uniform_2x2x2_block_collapses_to_single_cell() {
    let mut g = VoxelGrid::default();
    for x in 0..2 {
        for y in 0..2 {
            for z in 0..2 {
                g.set(IVec3::new(x, y, z), Some(RED));
            }
        }
    }
    let plan = plan_resample(&g, ResampleOp::Halve);
    assert_eq!(plan.source_count, 8);
    assert_eq!(plan.result_count, 1);
    assert!(!plan.lossy);
    assert_eq!(plan.cells_to_write, vec![(IVec3::new(0, 0, 0), RED)]);
}

#[test]
fn halve_mixed_block_picks_majority() {
    let mut g = VoxelGrid::default();
    let cells = [
        (IVec3::new(0, 0, 0), RED),
        (IVec3::new(1, 0, 0), RED),
        (IVec3::new(0, 1, 0), RED),
        (IVec3::new(0, 0, 1), RED),
        (IVec3::new(1, 1, 0), RED),
        (IVec3::new(1, 0, 1), BLUE),
        (IVec3::new(0, 1, 1), BLUE),
        (IVec3::new(1, 1, 1), BLUE),
    ];
    for (p, c) in cells {
        g.set(p, Some(c));
    }
    let plan = plan_resample(&g, ResampleOp::Halve);
    assert_eq!(plan.result_count, 1);
    assert!(plan.lossy);
    assert_eq!(plan.cells_to_write, vec![(IVec3::new(0, 0, 0), RED)]);
}

#[test]
fn halve_marks_lossy_when_any_block_mixed() {
    let mut g = VoxelGrid::default();
    for x in 0..2 {
        for z in 0..2 {
            g.set(IVec3::new(x, 0, z), Some(RED));
        }
    }
    g.set(IVec3::new(2, 0, 0), Some(GREEN));
    g.set(IVec3::new(3, 0, 0), Some(BLUE));
    g.set(IVec3::new(2, 0, 1), Some(BLUE));
    g.set(IVec3::new(3, 0, 1), Some(BLUE));
    let plan = plan_resample(&g, ResampleOp::Halve);
    assert!(plan.lossy);
    assert_eq!(plan.result_count, 2);
}

#[test]
fn halve_odd_dim_source_consumes_all_cells() {
    let mut g = VoxelGrid::default();
    for x in 0..3 {
        g.set(IVec3::new(x, 0, 0), Some(RED));
    }
    let plan = plan_resample(&g, ResampleOp::Halve);
    assert_eq!(plan.source_count, 3);
    assert_eq!(plan.result_count, 2);
    let mut blocks: Vec<(i32, i32, i32)> = plan.cells_to_write.iter().map(|(p, _)| (p.x, p.y, p.z)).collect();
    blocks.sort();
    assert_eq!(blocks, vec![(0, 0, 0), (1, 0, 0)]);
}

#[test]
fn halve_negative_coords_round_down_correctly() {
    let mut g = VoxelGrid::default();
    g.set(IVec3::new(-1, 0, 0), Some(RED));
    let plan = plan_resample(&g, ResampleOp::Halve);
    assert_eq!(plan.cells_to_write, vec![(IVec3::new(-1, 0, 0), RED)]);
}

#[test]
fn double_preserves_y_zero_floor() {
    let mut g = VoxelGrid::default();
    g.set(IVec3::new(0, 0, 0), Some(RED));
    let plan = plan_resample(&g, ResampleOp::Double);
    for (p, _) in &plan.cells_to_write {
        assert!(p.y >= 0, "double produced negative y: {p:?}");
    }
    let ys: std::collections::HashSet<i32> = plan.cells_to_write.iter().map(|(p, _)| p.y).collect();
    assert!(ys.contains(&0));
    assert!(ys.contains(&1));
}

#[test]
fn empty_grid_produces_empty_plan() {
    let g = VoxelGrid::default();
    let p1 = plan_resample(&g, ResampleOp::Double);
    assert_eq!(p1.source_count, 0);
    assert_eq!(p1.result_count, 0);
    assert!(p1.cells_to_clear.is_empty());
    assert!(p1.cells_to_write.is_empty());
    let p2 = plan_resample(&g, ResampleOp::Halve);
    assert_eq!(p2.source_count, 0);
    assert_eq!(p2.result_count, 0);
    assert!(!p2.lossy);
}

#[test]
fn apply_resample_creates_single_undo_stroke() {
    let mut g = VoxelGrid::default();
    for x in 0..2 {
        for y in 0..2 {
            for z in 0..2 {
                g.set(IVec3::new(x, y, z), Some(RED));
            }
        }
    }
    let mut h = History::new();
    apply_resample(&mut g, &mut h, ResampleOp::Double);
    assert_eq!(h.undo.len(), 1, "single stroke for resample");
    h.undo(&mut g);
    assert_eq!(g.count(), 8);
    for x in 0..2 {
        for y in 0..2 {
            for z in 0..2 {
                assert_eq!(g.get(IVec3::new(x, y, z)), Some(RED));
            }
        }
    }
}

#[test]
fn apply_resample_empty_grid_does_nothing() {
    let mut g = VoxelGrid::default();
    let mut h = History::new();
    apply_resample(&mut g, &mut h, ResampleOp::Double);
    assert_eq!(g.count(), 0);
    assert!(h.undo.is_empty());
}
