use roxel::geom::IVec3;
use roxel::grid::VoxelGrid;
use roxel::obj::export;

#[test]
fn single_voxel_writes_six_faces() {
    let mut g = VoxelGrid::default();
    g.set(IVec3::new(0, 0, 0), Some([255, 128, 0, 255]));
    let text = export(&g);
    let lines: Vec<&str> = text.lines().collect();
    assert_eq!(lines[0], "# Exported by Roxel");
    assert_eq!(lines.iter().filter(|l| l.starts_with("vn ")).count(), 6);
    assert_eq!(lines.iter().filter(|l| l.starts_with("v ")).count(), 24);
    assert_eq!(lines.iter().filter(|l| l.starts_with("f ")).count(), 6);
    assert_eq!(lines[1], "vn 1 0 0");
    assert!(lines[2].ends_with(" 1.000 0.502 0.000"));
    assert_eq!(*lines.last().unwrap(), "f 21//6 22//6 23//6 24//6");
    assert_eq!(lines[31], "f 1//1 2//1 3//1 4//1");
}

#[test]
fn touching_voxels_hide_the_shared_faces() {
    let mut g = VoxelGrid::default();
    g.set(IVec3::new(0, 0, 0), Some([1, 2, 3, 255]));
    g.set(IVec3::new(1, 0, 0), Some([1, 2, 3, 255]));
    let text = export(&g);
    assert_eq!(text.lines().filter(|l| l.starts_with("f ")).count(), 10);
    assert!(text.lines().any(|l| l.starts_with("v -") || l.starts_with("v 0 ") || l.starts_with("v 1 ") || l.starts_with("v 2 ")));
}

#[test]
fn colors_match_three_decimal_formatting() {
    for c in [0u8, 1, 50, 51, 127, 128, 200, 254, 255] {
        let mut g = VoxelGrid::default();
        g.set(IVec3::new(0, 0, 0), Some([c, c, c, 255]));
        let text = export(&g);
        let want = format!("{:.3}", c as f32 / 255.0);
        let line = text.lines().nth(2).unwrap();
        assert!(line.ends_with(&format!(" {want} {want} {want}")), "{line} vs {want}");
    }
}
