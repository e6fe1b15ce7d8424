use roxel::geom::{Color8, IVec3};
use roxel::shapes::{extrude, rect_cells, ShapePrimitive};
use roxel::tools::{
    apply_swatch_click, axis_lock, color_pool, constrain_move_delta, constrain_shape_corner2,
    extrude_args_from_signed_offset, sample_color, ExtraColors, RecentColors,
};
use std::collections::HashSet;

const C_R: Color8 = [255, 0, 0, 255];
const C_G: Color8 = [0, 255, 0, 255];
const C_B: Color8 = [0, 0, 255, 255];

fn cells_set(cells: Vec<IVec3>) -> HashSet<(i32, i32, i32)> {
    cells.into_iter().map(|c| (c.x, c.y, c.z)).collect()
}

#[test]
fn constrain_move_delta_zeros_face_normal_axis() {
    let d = IVec3::new(3, 5, -2);
    assert_eq!(constrain_move_delta(d, 0, false), IVec3::new(0, 5, -2));
    assert_eq!(constrain_move_delta(d, 1, false), IVec3::new(3, 0, -2));
    assert_eq!(constrain_move_delta(d, 2, false), IVec3::new(3, 5, 0));
}

#[test]
fn constrain_move_delta_shift_locks_y_for_horizontal_plane() {
    // Side face (X axis): in-plane is YZ. Shift drops Y → motion only on Z.
    let d = IVec3::new(99, 4, -3);
    assert_eq!(constrain_move_delta(d, 0, true), IVec3::new(0, 0, -3));
}

#[test]
fn constrain_move_delta_shift_on_top_face_is_noop_for_y() {
    // Top face already has Y zeroed; Shift just leaves things alone.
    let d = IVec3::new(3, 8, -2);
    assert_eq!(constrain_move_delta(d, 1, true), IVec3::new(3, 0, -2));
}

#[test]
fn constrain_move_delta_shift_on_front_face_drops_y() {
    // Front face (Z axis): in-plane is XY. Shift drops Y → motion only on X.
    let d = IVec3::new(4, -5, 99);
    assert_eq!(constrain_move_delta(d, 2, true), IVec3::new(4, 0, 0));
}

#[test]
fn axis_lock_keeps_dominant_axis_on_top_face() {
    // Top face → plane axis=1 (Y), in-plane is XZ. dx=5, dz=2 → X wins, Z snaps.
    let o = IVec3::new(0, 4, 0);
    assert_eq!(axis_lock(o, IVec3::new(5, 4, 2), 1), IVec3::new(5, 4, 0));
    // dz dominant → X snaps to origin.
    assert_eq!(axis_lock(o, IVec3::new(2, 4, 5), 1), IVec3::new(0, 4, 5));
}

#[test]
fn axis_lock_ties_favor_first_in_plane_axis() {
    // Equal deltas → du >= dv keeps the u (first) axis, snaps v.
    let o = IVec3::new(1, 4, 1);
    assert_eq!(axis_lock(o, IVec3::new(4, 4, 4), 1), IVec3::new(4, 4, 1));
}

#[test]
fn axis_lock_respects_plane_normal_axis() {
    // Side face → plane axis=0 (X), in-plane is YZ. Never touches X.
    let o = IVec3::new(7, 0, 0);
    assert_eq!(axis_lock(o, IVec3::new(7, 6, 2), 0), IVec3::new(7, 6, 0));
    assert_eq!(axis_lock(o, IVec3::new(7, 2, 6), 0), IVec3::new(7, 0, 6));
}

#[test]
fn extrude_args_zero_offset_is_single_slab_in_normal_direction() {
    let (count, dir) = extrude_args_from_signed_offset(0, 1);
    assert_eq!((count, dir), (1, 1));
    let (count, dir) = extrude_args_from_signed_offset(0, -1);
    assert_eq!((count, dir), (1, -1));
}

#[test]
fn extrude_args_positive_offset_grows_outward() {
    assert_eq!(extrude_args_from_signed_offset(3, 1), (4, 1));
    assert_eq!(extrude_args_from_signed_offset(3, -1), (4, -1));
}

#[test]
fn extrude_args_negative_offset_flips_direction() {
    assert_eq!(extrude_args_from_signed_offset(-3, 1), (4, -1));
    assert_eq!(extrude_args_from_signed_offset(-3, -1), (4, 1));
}

#[test]
fn shape_extrude_negative_offset_carves_into_surface() {
    // Footprint on a horizontal slab at y=5, normal +Y.
    let c1 = IVec3::new(0, 5, 0);
    let c2 = IVec3::new(1, 5, 1);
    let base = rect_cells(c1, c2, 1, true);
    // Negative offset → cells extend toward y < 5.
    let (count, dir) = extrude_args_from_signed_offset(-2, 1);
    let cells = cells_set(extrude(&base, 1, count, dir));
    assert!(cells.contains(&(0, 5, 0)));
    assert!(cells.contains(&(0, 4, 0)));
    assert!(cells.contains(&(0, 3, 0)));
    assert!(!cells.contains(&(0, 6, 0)));
    assert!(!cells.contains(&(0, 2, 0)));
}

#[test]
fn shape_extrude_positive_offset_extends_in_normal_direction() {
    let c1 = IVec3::new(0, 5, 0);
    let c2 = IVec3::new(1, 5, 1);
    let base = rect_cells(c1, c2, 1, true);
    let (count, dir) = extrude_args_from_signed_offset(2, 1);
    let cells = cells_set(extrude(&base, 1, count, dir));
    assert!(cells.contains(&(0, 5, 0)));
    assert!(cells.contains(&(0, 6, 0)));
    assert!(cells.contains(&(0, 7, 0)));
    assert!(!cells.contains(&(0, 4, 0)));
    assert!(!cells.contains(&(0, 8, 0)));
}


#[test]
fn color_pool_primary_first_dedup_against_primary() {
    let pool = color_pool(C_R, &[C_G, C_R, C_B]);
    assert_eq!(pool, vec![C_R, C_G, C_B]);
}

#[test]
fn color_pool_preserves_extras_order() {
    let pool = color_pool(C_R, &[C_B, C_G]);
    assert_eq!(pool, vec![C_R, C_B, C_G]);
}

#[test]
fn sample_color_pool_of_one_returns_primary() {
    for x in -3..3 {
        for y in 0..3 {
            for z in -3..3 {
                assert_eq!(sample_color(IVec3::new(x, y, z), &[C_R]), C_R);
            }
        }
    }
}

#[test]
fn sample_color_is_deterministic_for_same_position() {
    let pool = color_pool(C_R, &[C_G, C_B]);
    let p = IVec3::new(7, 2, -4);
    let first = sample_color(p, &pool);
    for _ in 0..16 {
        assert_eq!(sample_color(p, &pool), first);
    }
}

#[test]
fn sample_color_distributes_across_pool() {
    let pool = color_pool(C_R, &[C_G, C_B]);
    let mut seen: HashSet<Color8> = HashSet::new();
    for x in 0..16 {
        for z in 0..16 {
            seen.insert(sample_color(IVec3::new(x, 0, z), &pool));
        }
    }
    assert_eq!(seen.len(), 3);
}

#[test]
fn sample_color_always_returns_member_of_pool() {
    let pool = color_pool(C_R, &[C_G, C_B]);
    for x in -8..8 {
        for y in 0..4 {
            for z in -8..8 {
                let c = sample_color(IVec3::new(x, y, z), &pool);
                assert!(pool.contains(&c));
            }
        }
    }
}

#[test]
fn extra_colors_toggle_adds_and_removes() {
    let mut e = ExtraColors::default();
    assert!(e.toggle(C_G));
    assert!(e.contains(C_G));
    assert!(!e.toggle(C_G));
    assert!(!e.contains(C_G));
}

#[test]
fn apply_swatch_click_plain_resets_extras_and_swaps_primary() {
    let mut e = ExtraColors::default();
    e.toggle(C_G);
    e.toggle(C_B);
    let new_primary = apply_swatch_click(false, C_G, C_R, &mut e);
    assert_eq!(new_primary, C_G);
    assert!(e.0.is_empty());
}

#[test]
fn apply_swatch_click_shift_on_primary_is_noop() {
    let mut e = ExtraColors::default();
    let new_primary = apply_swatch_click(true, C_R, C_R, &mut e);
    assert_eq!(new_primary, C_R);
    assert!(e.0.is_empty());
}

#[test]
fn apply_swatch_click_shift_toggles_extras() {
    let mut e = ExtraColors::default();
    apply_swatch_click(true, C_G, C_R, &mut e);
    assert!(e.contains(C_G));
    apply_swatch_click(true, C_B, C_R, &mut e);
    assert!(e.contains(C_B));
    apply_swatch_click(true, C_G, C_R, &mut e);
    assert!(!e.contains(C_G));
    assert!(e.contains(C_B));
}

#[test]
fn recent_colors_push_moves_to_front_and_caps() {
    let mut r = RecentColors::default();
    for i in 0..10u8 {
        r.push([i, 0, 0, 255]);
    }
    assert_eq!(r.0.len(), 8);
    assert_eq!(r.0[0], [9, 0, 0, 255]);
    r.push([5, 0, 0, 255]);
    assert_eq!(r.0.len(), 8);
    assert_eq!(r.0[0], [5, 0, 0, 255]);
    assert_eq!(r.0[1], [9, 0, 0, 255]);
    assert_eq!(r.0.iter().filter(|c| **c == [5, 0, 0, 255]).count(), 1);
}

#[test]
fn sample_color_uses_the_cell_hash() {
    let pool = [C_R, C_G, C_B];
    // (1 * 73856093) ^ 0 ^ 0 = 73856093; 73856093 % 3 = 2.
    assert_eq!(sample_color(IVec3::new(1, 0, 0), &pool), C_B);
    assert_eq!(sample_color(IVec3::new(0, 0, 0), &pool), C_R);
}

#[test]
fn extra_colors_contains_and_clear() {
    let mut e = ExtraColors::default();
    e.toggle(C_R);
    e.toggle(C_B);
    assert!(e.contains(C_B));
    e.clear();
    assert!(!e.contains(C_R));
    assert!(e.0.is_empty());
}

#[test]
fn line3d_single_point() {
    let a = IVec3::new(3, 4, 5);
    assert_eq!(roxel::tools::line3d(a, a), vec![a]);
}

#[test]
fn line3d_x_major_rounds_halves_up() {
    let pts = roxel::tools::line3d(IVec3::new(0, 0, 0), IVec3::new(4, 2, -1));
    assert_eq!(
        pts,
        vec![
            IVec3::new(0, 0, 0),
            IVec3::new(1, 1, 0),
            IVec3::new(2, 1, -1),
            IVec3::new(3, 2, -1),
            IVec3::new(4, 2, -1),
        ]
    );
}

#[test]
fn line3d_z_major_reaches_end() {
    let a = IVec3::new(5, -3, 10);
    let b = IVec3::new(2, 0, 0);
    let pts = roxel::tools::line3d(a, b);
    assert_eq!(pts.len(), 11);
    assert_eq!(pts[0], a);
    assert_eq!(*pts.last().unwrap(), b);
    for w in pts.windows(2) {
        assert_eq!(w[1].z - w[0].z, -1);
        assert!((w[1].x - w[0].x).abs() <= 1);
        assert!((w[1].y - w[0].y).abs() <= 1);
    }
}

#[test]
fn constrain_shape_rect_makes_square_on_top_face() {
    let c1 = IVec3::new(0, 4, 0);
    let out = constrain_shape_corner2(ShapePrimitive::Rectangle, 1, c1, IVec3::new(3, 4, -7));
    assert_eq!(out, IVec3::new(7, 4, -7));
}

#[test]
fn constrain_shape_ellipse_matches_rect_square_rule() {
    let c1 = IVec3::new(-2, 0, 5);
    let out = constrain_shape_corner2(ShapePrimitive::Ellipse, 1, c1, IVec3::new(2, 0, 9));
    assert_eq!(out, IVec3::new(2, 0, 9));
}

#[test]
fn constrain_shape_rect_preserves_anchor_axis() {
    let c1 = IVec3::new(0, 0, 8);
    let out = constrain_shape_corner2(ShapePrimitive::Rectangle, 2, c1, IVec3::new(5, -2, 99));
    assert_eq!(out.z, 8);
    assert_eq!(out, IVec3::new(5, -5, 8));
}

#[test]
fn constrain_shape_line_snaps_to_axis_when_nearly_horizontal() {
    let c1 = IVec3::new(0, 0, 0);
    let out = constrain_shape_corner2(ShapePrimitive::Line, 1, c1, IVec3::new(10, 0, 1));
    assert_eq!(out, IVec3::new(10, 0, 0));
}

#[test]
fn constrain_shape_line_snaps_to_diagonal_when_balanced() {
    let c1 = IVec3::new(0, 0, 0);
    let out = constrain_shape_corner2(ShapePrimitive::Line, 1, c1, IVec3::new(5, 0, 4));
    assert_eq!(out, IVec3::new(5, 0, 5));
}

#[test]
fn constrain_shape_line_preserves_sign_on_diagonal() {
    let c1 = IVec3::new(0, 0, 0);
    let out = constrain_shape_corner2(ShapePrimitive::Line, 1, c1, IVec3::new(-6, 0, 5));
    assert_eq!(out, IVec3::new(-6, 0, 6));
}

#[test]
fn constrain_shape_zero_delta_is_identity() {
    let c1 = IVec3::new(2, 3, 4);
    for prim in [ShapePrimitive::Rectangle, ShapePrimitive::Ellipse, ShapePrimitive::Line] {
        assert_eq!(constrain_shape_corner2(prim, 1, c1, c1), c1);
    }
}

#[test]
fn constrain_shape_line_threshold_is_tan_22_5() {
    let c1 = IVec3::new(0, 0, 0);
    // 41/100 is under 0.4142: stays on the longer leg; 42/100 is over: diagonal.
    assert_eq!(
        constrain_shape_corner2(ShapePrimitive::Line, 1, c1, IVec3::new(41, 0, 100)),
        IVec3::new(0, 0, 100)
    );
    assert_eq!(
        constrain_shape_corner2(ShapePrimitive::Line, 1, c1, IVec3::new(42, 0, 100)),
        IVec3::new(100, 0, 100)
    );
}
