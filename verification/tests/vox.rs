use roxel::geom::IVec3;
use roxel::grid::VoxelGrid;
use roxel::vox::{export, import, import_data, vox_model, VoxData, VoxError};

#[test]
fn vox_export_remaps_y_up_to_z_up() {
    let mut g = VoxelGrid::default();
    g.set(IVec3::new(0, 5, 0), Some([10, 20, 30, 255]));
    let m = vox_model(&g).ok().expect("model");
    assert_eq!(m.voxels.len(), 1);
    let v = m.voxels[0];
    assert_eq!((v.0, v.1, v.2), (0, 0, 0));
    assert_eq!(m.size, (1, 1, 1));
}

#[test]
fn export_shifts_to_origin_for_negative_coords() {
    let mut g = VoxelGrid::default();
    g.set(IVec3::new(-5, 0, -10), Some([1, 2, 3, 255]));
    g.set(IVec3::new(5, 7, 0), Some([4, 5, 6, 255]));
    let m = vox_model(&g).ok().expect("model");
    assert_eq!(m.size, (11, 11, 8));
    assert!(m.voxels.iter().any(|v| (v.0, v.1, v.2) == (0, 0, 0)));
    assert!(m.voxels.iter().any(|v| (v.0, v.1, v.2) == (10, 10, 7)));
}

#[test]
fn export_refuses_when_extent_exceeds_256() {
    let mut g = VoxelGrid::default();
    g.set(IVec3::new(0, 0, 0), Some([1, 2, 3, 255]));
    g.set(IVec3::new(300, 0, 0), Some([4, 5, 6, 255]));
    match export(&g) {
        Err(VoxError::TooLarge { x, y, z }) => assert_eq!((x, y, z), (301, 1, 1)),
        _ => panic!("must refuse"),
    }
}

#[test]
fn export_refuses_empty_grid() {
    let g = VoxelGrid::default();
    assert!(matches!(export(&g), Err(VoxError::Empty)));
}

#[test]
fn export_palette_dedups_and_pads() {
    let mut g = VoxelGrid::default();
    g.set(IVec3::new(0, 0, 0), Some([9, 8, 7, 255]));
    g.set(IVec3::new(1, 0, 0), Some([9, 8, 7, 255]));
    g.set(IVec3::new(2, 0, 0), Some([1, 1, 1, 255]));
    let m = vox_model(&g).ok().expect("model");
    assert_eq!(m.palette.len(), 256);
    let first = m.palette[0];
    let second = m.palette[1];
    let mut got = vec![first, second];
    got.sort();
    assert_eq!(got, vec![[1, 1, 1, 255], [9, 8, 7, 255]]);
    assert_eq!(m.palette[2], [0, 0, 0, 0]);
    for v in &m.voxels {
        assert!(v.3 < 2);
    }
}

#[test]
fn export_falls_back_to_nearest_color_past_255() {
    let mut g = VoxelGrid::default();
    for i in 0..256u32 {
        let c = [(i % 256) as u8, (i / 16) as u8 * 10, 3, 255];
        g.set(IVec3::new(i as i32, 0, 0), Some(c));
    }
    let m = vox_model(&g).ok().expect("model");
    assert_eq!(m.voxels.len(), 256);
    for v in &m.voxels {
        assert!(v.3 < 255);
    }
    assert_eq!(m.palette[255], [0, 0, 0, 0]);
}

#[test]
fn import_remaps_z_up_to_y_up() {
    let data = VoxData {
        models: vec![vec![(0, 0, 5, 0)]],
        palette: vec![[99, 88, 77, 255]],
    };
    let mut g = VoxelGrid::default();
    let used = import_data(&data, &mut g).ok().expect("import");
    assert_eq!(g.get(IVec3::new(0, 5, 0)), Some([99, 88, 77, 255]));
    assert_eq!(used, vec![[99, 88, 77, 255]]);
}

#[test]
fn import_unknown_index_reads_white() {
    let data = VoxData {
        models: vec![vec![(1, 2, 3, 7)]],
        palette: vec![[1, 2, 3, 255]],
    };
    let mut g = VoxelGrid::default();
    let used = import_data(&data, &mut g).ok().expect("import");
    assert_eq!(g.get(IVec3::new(1, 3, 2)), Some([255, 255, 255, 255]));
    assert_eq!(used, vec![[255, 255, 255, 255]]);
}

#[test]
fn import_used_colors_in_index_order() {
    let data = VoxData {
        models: vec![vec![(0, 0, 0, 2), (1, 0, 0, 0), (2, 0, 0, 2)]],
        palette: vec![[10, 0, 0, 255], [20, 0, 0, 255], [30, 0, 0, 255]],
    };
    let mut g = VoxelGrid::default();
    let used = import_data(&data, &mut g).ok().expect("import");
    assert_eq!(used, vec![[10, 0, 0, 255], [30, 0, 0, 255]]);
    assert_eq!(g.count(), 3);
}

#[test]
fn import_without_models_fails() {
    let data = VoxData { models: vec![], palette: vec![] };
    let mut g = VoxelGrid::default();
    assert!(matches!(import_data(&data, &mut g), Err(VoxError::NoModels)));
}

#[test]
fn import_rejects_garbage() {
    let mut g = VoxelGrid::default();
    assert!(matches!(import(b"not a vox file", &mut g), Err(VoxError::Invalid)));
}

#[test]
fn import_roundtrips_through_export() {
    let mut g = VoxelGrid::default();
    let pts: [(IVec3, [u8; 4]); 3] = [
        (IVec3::new(0, 0, 0), [255, 0, 0, 255]),
        (IVec3::new(5, 12, 7), [0, 255, 0, 255]),
        (IVec3::new(31, 31, 31), [0, 0, 255, 255]),
    ];
    for (p, c) in pts {
        g.set(p, Some(c));
    }
    let bytes = export(&g).ok().expect("export");
    let mut loaded = VoxelGrid::default();
    loaded.set(IVec3::new(1, 1, 1), Some([9, 9, 9, 255]));
    import(&bytes, &mut loaded).ok().expect("import");
    for (p, c) in pts {
        assert_eq!(loaded.get(p), Some(c));
    }
    assert_eq!(loaded.get(IVec3::new(1, 1, 1)), Some([9, 9, 9, 255]));
}

#[test]
fn export_accepts_extent_of_exactly_256() {
    let mut g = VoxelGrid::default();
    g.set(IVec3::new(0, 0, 0), Some([1, 2, 3, 255]));
    g.set(IVec3::new(255, 0, 0), Some([4, 5, 6, 255]));
    let bytes = export(&g).ok().expect("256 cells wide fits");
    assert_eq!(&bytes[0..4], b"VOX ");
    g.set(IVec3::new(256, 0, 0), Some([4, 5, 6, 255]));
    assert!(matches!(export(&g), Err(VoxError::TooLarge { x: 257, y: 1, z: 1 })));
}

#[test]
fn export_writes_the_chunk_layout() {
    let mut g = VoxelGrid::default();
    g.set(IVec3::new(0, 0, 0), Some([10, 20, 30, 255]));
    let b = export(&g).ok().expect("export");
    let u32_at = |i: usize| u32::from_le_bytes([b[i], b[i + 1], b[i + 2], b[i + 3]]);
    assert_eq!(&b[0..4], b"VOX ");
    assert_eq!(u32_at(4), 150);
    assert_eq!(&b[8..12], b"MAIN");
    assert_eq!(u32_at(12), 0);
    assert_eq!(u32_at(16) as usize, b.len() - 20);
    assert_eq!(&b[20..24], b"SIZE");
    assert_eq!((u32_at(24), u32_at(28)), (12, 0));
    assert_eq!((u32_at(32), u32_at(36), u32_at(40)), (1, 1, 1));
    assert_eq!(&b[44..48], b"XYZI");
    assert_eq!((u32_at(48), u32_at(52), u32_at(56)), (8, 0, 1));
    assert_eq!(&b[60..64], &[0, 0, 0, 1]);
    assert_eq!(&b[64..68], b"RGBA");
    assert_eq!(u32_at(68) as usize, b.len() - 76);
    assert_eq!(&b[76..80], &[10, 20, 30, 255]);
}
