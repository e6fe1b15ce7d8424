use roxel::geom::IVec3;
use roxel::grid::{origin_near_count, VoxelGrid};
use roxel::shot::{average_color, GradientMode, ResPreset};

#[test]
fn res_preset_dims_and_aspect() {
    assert_eq!(ResPreset::Landscape.dims(), (2000, 1500));
    let (w, h) = ResPreset::Wide.dims();
    assert!((w as f32 / h as f32 - 16.0 / 9.0).abs() < 1e-3);
    let (pw, ph) = ResPreset::Portrait.dims();
    assert!((pw as f32 / ph as f32) < 1.0);
    assert_eq!(ResPreset::all().len(), 4);
    assert_eq!(ResPreset::Square.label(), "1:1");
    assert_eq!(ResPreset::default(), ResPreset::Landscape);
}

#[test]
fn gradient_mode_labels() {
    let labels: Vec<&str> = GradientMode::all().iter().map(|m| m.label()).collect();
    assert_eq!(labels, vec!["Solid", "Vertical", "Radial"]);
}

#[test]
fn average_color_of_two_cells() {
    let cells = vec![
        (IVec3::new(0, 0, 0), [100, 100, 100, 255]),
        (IVec3::new(1, 1, 1), [200, 200, 200, 255]),
    ];
    assert_eq!(average_color(&cells), [150, 150, 150]);
}

#[test]
fn average_color_rounds_down_and_defaults_to_grey() {
    assert_eq!(average_color(&[]), [128, 128, 128]);
    let cells = vec![
        (IVec3::new(0, 0, 0), [1, 0, 255, 9]),
        (IVec3::new(0, 1, 0), [2, 1, 254, 9]),
    ];
    assert_eq!(average_color(&cells), [1, 0, 254]);
}

#[test]
fn origin_near_count_empty_is_zero() {
    assert_eq!(origin_near_count(&VoxelGrid::default()), 0);
}

#[test]
fn origin_near_count_counts_only_inside_box() {
    let mut g = VoxelGrid::default();
    let c = [255, 0, 0, 255];
    g.set(IVec3::new(0, 0, 0), Some(c));
    g.set(IVec3::new(-4, 4, 4), Some(c));
    g.set(IVec3::new(4, 0, -4), Some(c));
    g.set(IVec3::new(5, 0, 0), Some(c));
    g.set(IVec3::new(0, 5, 0), Some(c));
    g.set(IVec3::new(0, 0, -5), Some(c));
    assert_eq!(origin_near_count(&g), 3);
}

#[test]
fn origin_near_count_caps_at_eight() {
    let mut g = VoxelGrid::default();
    let c = [0, 255, 0, 255];
    let mut placed = 0;
    'fill: for x in -4..=4 {
        for z in -4..=4 {
            g.set(IVec3::new(x, 0, z), Some(c));
            placed += 1;
            if placed >= 12 {
                break 'fill;
            }
        }
    }
    assert_eq!(origin_near_count(&g), 8);
}

#[test]
fn origin_near_count_does_not_scan_distant_voxels() {
    let mut g = VoxelGrid::default();
    let c = [0, 0, 255, 255];
    g.set(IVec3::new(500, 0, 500), Some(c));
    g.set(IVec3::new(-300, 10, 200), Some(c));
    assert_eq!(origin_near_count(&g), 0);
}
