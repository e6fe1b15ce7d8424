use roxel::geom::IVec3;
use roxel::grid::VoxelGrid;
use roxel::project::{load, save, save_with_preview, ProjectFile, PROJECT_VERSION};

#[test]
fn roundtrip_preserves_voxels() {
    let mut g = VoxelGrid::default();
    let pts: [(IVec3, [u8; 4]); 3] = [
        (IVec3::new(0, 0, 0), [10, 20, 30, 255]),
        (IVec3::new(5, 6, 7), [200, 100, 50, 255]),
        (IVec3::new(63, 63, 63), [1, 2, 3, 128]),
    ];
    for (p, c) in pts {
        g.set(p, Some(c));
    }
    let pf = save(&g);
    assert!(pf.preview.is_none());
    let mut loaded = VoxelGrid::default();
    loaded.set(IVec3::new(1, 1, 1), Some([9, 9, 9, 255]));
    load(&pf, &mut loaded);
    assert_eq!(loaded.count(), 3);
    for (p, c) in pts {
        assert_eq!(loaded.get(p), Some(c));
    }
    assert_eq!(loaded.get(IVec3::new(1, 1, 1)), None);
}

#[test]
fn preview_is_base64() {
    let g = VoxelGrid::default();
    let pf = save_with_preview(&g, b"hi!");
    assert_eq!(pf.preview.as_deref(), Some("aGkh"));
    assert!(pf.voxels.is_empty());
}

#[test]
fn load_drops_cells_below_floor_and_keeps_last_write() {
    let pf = ProjectFile {
        version: 1,
        size: [3, 1, 1],
        voxels: vec![([0, -1, 0], [1, 1, 1, 255]), ([2, 0, 0], [1, 1, 1, 255]), ([2, 0, 0], [5, 5, 5, 255])],
        preview: None,
    };
    let mut g = VoxelGrid::default();
    load(&pf, &mut g);
    assert_eq!(g.count(), 1);
    assert_eq!(g.get(IVec3::new(2, 0, 0)), Some([5, 5, 5, 255]));
}

#[test]
fn save_records_version_and_size() {
    let mut g = VoxelGrid::default();
    g.set(IVec3::new(-2, 0, 1), Some([1, 2, 3, 255]));
    g.set(IVec3::new(3, 4, 1), Some([4, 5, 6, 255]));
    let pf = save(&g);
    assert_eq!(pf.version, PROJECT_VERSION);
    assert_eq!(pf.version, 1);
    assert_eq!(pf.size, [6, 5, 1]);
    assert_eq!(pf.voxels.len(), 2);
    let empty = save(&VoxelGrid::default());
    assert_eq!(empty.size, [0, 0, 0]);
    let one = {
        let mut g1 = VoxelGrid::default();
        g1.set(IVec3::new(0, 0, 0), Some([7, 7, 7, 255]));
        save(&g1)
    };
    assert_eq!(one.voxels.len(), 1);
    assert_eq!(one.size, [1, 1, 1]);
}

#[test]
fn preview_base64_pads_short_tails() {
    let g = VoxelGrid::default();
    assert_eq!(save_with_preview(&g, b"h").preview.as_deref(), Some("aA=="));
    assert_eq!(save_with_preview(&g, b"hi").preview.as_deref(), Some("aGk="));
    assert_eq!(save_with_preview(&g, b"hi!!").preview.as_deref(), Some("aGkhIQ=="));
    assert_eq!(save_with_preview(&g, &[0xfb, 0xff]).preview.as_deref(), Some("+/8="));
}
