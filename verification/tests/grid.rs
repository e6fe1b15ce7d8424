use roxel::geom::{Color8, IVec3};
use roxel::grid::{
    large_scene_threshold_crossed, large_scene_warning_cleared, VoxelGrid, CHUNK_I,
    HYSTERESIS_DEN, HYSTERESIS_NUM, LARGE_SCENE_CELLS, LARGE_SCENE_CHUNKS,
};

fn zero() -> IVec3 {
    IVec3::new(0, 0, 0)
}

#[test]
fn default_is_empty() {
    let g = VoxelGrid::default();
    assert_eq!(g.chunk_count(), 0);
    assert_eq!(g.count(), 0);
    assert!(!g.warned_large());
}

#[test]
fn set_below_floor_is_refused() {
    let mut g = VoxelGrid::default();
    g.set(IVec3::new(0, -1, 0), Some([1, 2, 3, 255]));
    assert_eq!(g.count(), 0);
    assert_eq!(g.chunk_count(), 0);
    assert_eq!(g.get(IVec3::new(0, -1, 0)), None);
}

#[test]
fn set_at_floor_y_zero_is_allowed() {
    let mut g = VoxelGrid::default();
    g.set(IVec3::new(0, 0, 0), Some([1, 2, 3, 255]));
    assert_eq!(g.get(IVec3::new(0, 0, 0)), Some([1, 2, 3, 255]));
}

#[test]
fn set_get_roundtrip_and_dirty_flag() {
    let mut g = VoxelGrid::default();
    g.set_dirty(false);
    let c: Color8 = [10, 20, 30, 255];
    g.set(IVec3::new(1, 2, 3), Some(c));
    assert_eq!(g.get(IVec3::new(1, 2, 3)), Some(c));
    assert!(g.dirty());
}

#[test]
fn set_at_negative_x_or_z_works() {
    let mut g = VoxelGrid::default();
    g.set(IVec3::new(-50, 0, 100), Some([5, 6, 7, 255]));
    assert_eq!(g.get(IVec3::new(-50, 0, 100)), Some([5, 6, 7, 255]));
}

#[test]
fn chunk_allocates_on_first_write_and_drops_when_emptied() {
    let mut g = VoxelGrid::default();
    g.set(IVec3::new(5, 5, 5), Some([1, 1, 1, 255]));
    assert_eq!(g.chunk_count(), 1);
    assert!(g.has_chunk(zero()));
    g.set(IVec3::new(5, 5, 5), None);
    assert_eq!(g.chunk_count(), 0);
    assert_eq!(g.count(), 0);
}

#[test]
fn iter_occupied_visits_all_set_cells() {
    let mut g = VoxelGrid::default();
    let positions = [
        IVec3::new(0, 0, 0),
        IVec3::new(35, 17, 9),
        IVec3::new(-50, 0, 100),
    ];
    for p in &positions {
        g.set(*p, Some([1, 2, 3, 255]));
    }
    let mut seen: Vec<IVec3> = g.iter_occupied().into_iter().map(|(p, _)| p).collect();
    seen.sort_by_key(|p| (p.x, p.y, p.z));
    let mut want: Vec<IVec3> = positions.to_vec();
    want.sort_by_key(|p| (p.x, p.y, p.z));
    assert_eq!(seen, want);
}

#[test]
fn bounding_box_handles_negative_coords() {
    let mut g = VoxelGrid::default();
    g.set(IVec3::new(-10, 0, 5), Some([1, 1, 1, 255]));
    g.set(IVec3::new(20, 100, 50), Some([1, 1, 1, 255]));
    let (min, max) = g.bounding_box().unwrap();
    assert_eq!(min, IVec3::new(-10, 0, 5));
    assert_eq!(max, IVec3::new(20, 100, 50));
}

#[test]
fn bounding_box_none_when_empty() {
    let g = VoxelGrid::default();
    assert!(g.bounding_box().is_none());
}

#[test]
fn set_marks_owning_chunk_dirty() {
    let mut g = VoxelGrid::default();
    g.clear_dirty_chunks();
    g.set(IVec3::new(5, 5, 5), Some([1, 1, 1, 255]));
    assert!(g.is_chunk_dirty(zero()));
}

#[test]
fn set_marks_seam_neighbour_dirty_positive() {
    let mut g = VoxelGrid::default();
    g.clear_dirty_chunks();
    // Last column of chunk (0,0,0); the X-seam neighbour (1,0,0) flags.
    let p = IVec3::new(CHUNK_I - 1, 5, 5);
    g.set(p, Some([1, 1, 1, 255]));
    assert!(g.is_chunk_dirty(zero()));
    assert!(g.is_chunk_dirty(IVec3::new(1, 0, 0)));
}

#[test]
fn chunk_dirty_seam_propagation_with_negative_coords() {
    let mut g = VoxelGrid::default();
    g.clear_dirty_chunks();
    // x=0 in world coords is x=0 inside chunk (0,*,*); seam neighbour
    // at chunk (-1,0,0) must flag too.
    let p = IVec3::new(0, 5, 5);
    g.set(p, Some([1, 1, 1, 255]));
    assert!(g.is_chunk_dirty(zero()));
    assert!(g.is_chunk_dirty(IVec3::new(-1, 0, 0)));
}

#[test]
fn set_does_not_mark_distant_chunks_dirty() {
    let mut g = VoxelGrid::default();
    g.clear_dirty_chunks();
    g.set(IVec3::new(5, 5, 5), Some([1, 1, 1, 255]));
    assert!(g.is_chunk_dirty(zero()));
    assert!(!g.is_chunk_dirty(IVec3::new(1, 0, 0)));
    assert!(!g.is_chunk_dirty(IVec3::new(-1, 0, 0)));
}

#[test]
fn clear_drops_all_chunks_and_dirties_them() {
    let mut g = VoxelGrid::default();
    g.set(IVec3::new(0, 0, 0), Some([1, 1, 1, 255]));
    g.set(IVec3::new(50, 60, 70), Some([2, 2, 2, 255]));
    g.clear_dirty_chunks();
    g.clear();
    assert_eq!(g.chunk_count(), 0);
    assert_eq!(g.count(), 0);
    assert!(g.dirty());
    // The two former chunk coords are now dirty so the mesher despawns
    // their entities next frame.
    assert!(g.is_chunk_dirty(zero()));
    assert!(g.is_chunk_dirty(IVec3::new(1, 1, 2)));
}

#[test]
fn count_tracks_set_and_overwrite() {
    let mut g = VoxelGrid::default();
    g.set(IVec3::new(0, 0, 0), Some([1, 1, 1, 255]));
    g.set(IVec3::new(0, 0, 0), Some([2, 2, 2, 255])); // overwrite, no delta
    assert_eq!(g.count(), 1);
    g.set(IVec3::new(0, 0, 0), None);
    assert_eq!(g.count(), 0);
}

#[test]
fn large_scene_threshold_crossed_by_cells() {
    assert!(!large_scene_threshold_crossed(LARGE_SCENE_CELLS - 1, 0));
    assert!(large_scene_threshold_crossed(LARGE_SCENE_CELLS, 0));
}

#[test]
fn large_scene_threshold_crossed_by_chunks() {
    assert!(!large_scene_threshold_crossed(0, LARGE_SCENE_CHUNKS - 1));
    assert!(large_scene_threshold_crossed(0, LARGE_SCENE_CHUNKS));
}

#[test]
fn large_scene_warning_clears_only_when_both_below_hysteresis() {
    let cells_below = LARGE_SCENE_CELLS * HYSTERESIS_NUM / HYSTERESIS_DEN - 1;
    let chunks_below = LARGE_SCENE_CHUNKS * HYSTERESIS_NUM / HYSTERESIS_DEN - 1;
    let cells_above = LARGE_SCENE_CELLS * HYSTERESIS_NUM / HYSTERESIS_DEN;
    let chunks_above = LARGE_SCENE_CHUNKS * HYSTERESIS_NUM / HYSTERESIS_DEN;
    assert!(large_scene_warning_cleared(cells_below, chunks_below));
    assert!(!large_scene_warning_cleared(cells_above, chunks_below));
    assert!(!large_scene_warning_cleared(cells_below, chunks_above));
}

#[test]
fn set_in_far_chunk_counts_chunks_separately() {
    let mut g = VoxelGrid::default();
    g.set(IVec3::new(-1, 0, -1), Some([1, 1, 1, 255]));
    g.set(IVec3::new(0, 0, 0), Some([1, 1, 1, 255]));
    assert_eq!(g.chunk_count(), 2);
    assert!(g.has_chunk(IVec3::new(-1, 0, -1)));
    assert!(g.has_chunk(zero()));
    assert_eq!(g.count(), 2);
}

#[test]
fn bounding_box_of_single_cell() {
    let mut g = VoxelGrid::default();
    g.set(IVec3::new(7, 8, 9), Some([1, 1, 1, 255]));
    assert_eq!(
        g.bounding_box(),
        Some((IVec3::new(7, 8, 9), IVec3::new(7, 8, 9)))
    );
}
