use roxel::geom::IVec3;
use roxel::grid::{VoxelGrid, CHUNK_I};
use roxel::mesh::{greedy_quads, greedy_quads_bounded, GreedyQuad};

#[test]
fn greedy_quads_single_voxel_emits_six_faces() {
    let mut g = VoxelGrid::default();
    g.set(IVec3::new(5, 5, 5), Some([1, 1, 1, 255]));
    let quads = greedy_quads(&g, None, None);
    assert_eq!(quads.len(), 6);
}

#[test]
fn greedy_quads_two_adjacent_voxels_share_face() {
    let mut g = VoxelGrid::default();
    g.set(IVec3::new(0, 0, 0), Some([1, 1, 1, 255]));
    g.set(IVec3::new(1, 0, 0), Some([1, 1, 1, 255]));
    let quads = greedy_quads(&g, None, None);
    assert_eq!(quads.len(), 6);
}

#[test]
fn greedy_quads_merges_same_color_row_into_one_quad_per_face() {
    let mut g = VoxelGrid::default();
    for x in 0..4 {
        g.set(IVec3::new(x, 0, 0), Some([1, 1, 1, 255]));
    }
    let quads = greedy_quads(&g, None, None);
    assert_eq!(quads.len(), 6);
}

#[test]
fn greedy_quads_different_colors_do_not_merge() {
    let mut g = VoxelGrid::default();
    g.set(IVec3::new(0, 0, 0), Some([1, 0, 0, 255]));
    g.set(IVec3::new(1, 0, 0), Some([2, 0, 0, 255]));
    let quads = greedy_quads(&g, None, None);
    assert_eq!(quads.len(), 10);
}

#[test]
fn greedy_quads_recolor_swaps_rgb_keeps_alpha() {
    let mut g = VoxelGrid::default();
    g.set(IVec3::new(2, 2, 2), Some([10, 20, 30, 200]));
    let quads = greedy_quads(&g, None, Some((IVec3::new(2, 2, 2), [99, 88, 77, 255])));
    assert_eq!(quads.len(), 6);
    for q in &quads {
        assert_eq!(q.color, [99, 88, 77, 200]);
    }
}

#[test]
fn greedy_quads_recolor_only_affects_targeted_cell() {
    let mut g = VoxelGrid::default();
    g.set(IVec3::new(0, 0, 0), Some([10, 10, 10, 255]));
    g.set(IVec3::new(2, 0, 0), Some([10, 10, 10, 255]));
    let quads = greedy_quads(&g, None, Some((IVec3::new(0, 0, 0), [200, 0, 0, 255])));
    let recolored = quads.iter().filter(|q| q.color == [200, 0, 0, 255]).count();
    let untouched = quads
        .iter()
        .filter(|q| q.color == [10, 10, 10, 255])
        .count();
    assert_eq!(recolored, 6);
    assert_eq!(untouched, 6);
}

#[test]
fn greedy_quads_hide_skips_targeted_cell() {
    let mut g = VoxelGrid::default();
    g.set(IVec3::new(5, 5, 5), Some([1, 1, 1, 255]));
    let quads = greedy_quads(&g, Some(IVec3::new(5, 5, 5)), None);
    assert_eq!(quads.len(), 0);
}

/// Total unit-face area per face direction, from each quad's corners.
fn area_by_face(quads: &[GreedyQuad]) -> [i64; 6] {
    let mut areas = [0i64; 6];
    for q in quads {
        let (u, v) = match q.face_idx {
            0 | 1 => (1usize, 2usize),
            2 | 3 => (0, 2),
            _ => (0, 1),
        };
        let mut u_min = i64::MAX;
        let mut u_max = i64::MIN;
        let mut v_min = i64::MAX;
        let mut v_max = i64::MIN;
        for c in &q.corners() {
            let arr = [c.x as i64, c.y as i64, c.z as i64];
            u_min = u_min.min(arr[u]);
            u_max = u_max.max(arr[u]);
            v_min = v_min.min(arr[v]);
            v_max = v_max.max(arr[v]);
        }
        areas[q.face_idx] += (u_max - u_min) * (v_max - v_min);
    }
    areas
}

#[test]
fn chunked_quads_cover_same_area_as_monolithic_across_seams() {
    let mut g = VoxelGrid::default();
    let pts = [
        IVec3::new(0, 0, 0),
        IVec3::new(31, 5, 5),
        IVec3::new(32, 5, 5),
        IVec3::new(33, 5, 5),
        IVec3::new(5, 31, 5),
        IVec3::new(5, 32, 5),
        IVec3::new(80, 80, 80),
    ];
    for p in pts {
        g.set(p, Some([7, 7, 7, 255]));
    }
    let walk_a = greedy_quads(&g, None, None);
    let walk_b = {
        let mut out = Vec::new();
        for coord in g.chunk_coords() {
            let min = IVec3::new(coord.x * CHUNK_I, coord.y * CHUNK_I, coord.z * CHUNK_I);
            let max = IVec3::new(min.x + CHUNK_I, min.y + CHUNK_I, min.z + CHUNK_I);
            out.extend(greedy_quads_bounded(&g, None, None, min, max));
        }
        out
    };
    assert_eq!(area_by_face(&walk_a), area_by_face(&walk_b));
}

#[test]
fn chunked_quads_hide_cross_chunk_seam_faces() {
    let mut g = VoxelGrid::default();
    g.set(IVec3::new(CHUNK_I - 1, 0, 0), Some([1, 1, 1, 255]));
    g.set(IVec3::new(CHUNK_I, 0, 0), Some([1, 1, 1, 255]));
    let quads = greedy_quads(&g, None, None);
    let total: i64 = area_by_face(&quads).iter().sum();
    // 2 caps (1 area each) + 4 long sides (2 area each) = 10.
    assert_eq!(total, 10);
}

#[test]
fn greedy_quads_handles_negative_coords() {
    let mut g = VoxelGrid::default();
    g.set(IVec3::new(-5, 0, -5), Some([1, 1, 1, 255]));
    let quads = greedy_quads(&g, None, None);
    assert_eq!(quads.len(), 6);
}

#[test]
fn top_face_quad_spans_merged_row() {
    let mut g = VoxelGrid::default();
    for x in 0..3 {
        g.set(IVec3::new(x, 0, 0), Some([4, 4, 4, 255]));
    }
    let quads = greedy_quads_bounded(&g, None, None, IVec3::new(0, 0, 0), IVec3::new(32, 32, 32));
    let top: Vec<&GreedyQuad> = quads.iter().filter(|q| q.face_idx == 2).collect();
    assert_eq!(top.len(), 1);
    let q = top[0];
    assert_eq!((q.layer, q.u0, q.u1, q.v0, q.v1), (0, 0, 3, 0, 1));
    assert_eq!(
        q.corners(),
        [
            IVec3::new(0, 1, 0),
            IVec3::new(3, 1, 0),
            IVec3::new(3, 1, 1),
            IVec3::new(0, 1, 1)
        ]
    );
}

#[test]
fn empty_box_yields_no_quads() {
    let mut g = VoxelGrid::default();
    g.set(IVec3::new(1, 1, 1), Some([4, 4, 4, 255]));
    let quads = greedy_quads_bounded(&g, None, None, IVec3::new(5, 5, 5), IVec3::new(5, 9, 9));
    assert!(quads.is_empty());
}
