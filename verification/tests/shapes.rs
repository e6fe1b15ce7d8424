use roxel::geom::IVec3;
use roxel::shapes::{
    cell_bounds, compute_shape_cells, ellipse_cells, extrude, line2d_cells, other_axes,
    rect_cells, ShapePrimitive,
};
use std::collections::HashSet;

fn set(v: Vec<IVec3>) -> HashSet<(i32, i32, i32)> {
    v.into_iter().map(|p| (p.x, p.y, p.z)).collect()
}

#[test]
fn rect_filled_3x3_y_axis_emits_9_cells_on_plane() {
    let cells = rect_cells(IVec3::new(0, 5, 0), IVec3::new(2, 5, 2), 1, true);
    assert_eq!(cells.len(), 9);
    for c in &cells {
        assert_eq!(c.y, 5);
    }
    let s = set(cells);
    for u in 0..=2 {
        for v in 0..=2 {
            assert!(s.contains(&(u, 5, v)));
        }
    }
}

#[test]
fn rect_outline_3x3_emits_8_edge_cells() {
    let cells = rect_cells(IVec3::new(0, 5, 0), IVec3::new(2, 5, 2), 1, false);
    assert_eq!(cells.len(), 8);
    assert!(!set(cells).contains(&(1, 5, 1)));
}

#[test]
fn rect_axis_orientation_x_axis_constant_x() {
    let cells = rect_cells(IVec3::new(3, 0, 0), IVec3::new(3, 4, 4), 0, true);
    for c in &cells {
        assert_eq!(c.x, 3);
    }
    assert_eq!(cells.len(), 25);
}

#[test]
fn rect_handles_inverted_corners() {
    let a = rect_cells(IVec3::new(2, 0, 2), IVec3::new(0, 0, 0), 1, true);
    let b = rect_cells(IVec3::new(0, 0, 0), IVec3::new(2, 0, 2), 1, true);
    assert_eq!(set(a), set(b));
}

#[test]
fn ellipse_inscribed_in_rect() {
    let cells = ellipse_cells(IVec3::new(0, 0, 0), IVec3::new(4, 0, 4), 1, true);
    assert!(!cells.is_empty());
    let s = set(cells);
    assert!(s.contains(&(2, 0, 2)));
    // Corners of bounding rect lie outside an inscribed ellipse.
    assert!(!s.contains(&(0, 0, 0)));
    assert!(!s.contains(&(4, 0, 4)));
}

#[test]
fn ellipse_outline_subset_of_filled() {
    let filled = set(ellipse_cells(IVec3::new(0, 0, 0), IVec3::new(6, 0, 6), 1, true));
    let outline = set(ellipse_cells(IVec3::new(0, 0, 0), IVec3::new(6, 0, 6), 1, false));
    assert!(outline.is_subset(&filled));
    assert!(outline.len() < filled.len());
}

#[test]
fn line2d_endpoints_present() {
    let cells = line2d_cells(IVec3::new(0, 0, 0), IVec3::new(5, 0, 2), 1);
    let s = set(cells);
    assert!(s.contains(&(0, 0, 0)));
    assert!(s.contains(&(5, 0, 2)));
}

#[test]
fn line2d_horizontal_count() {
    let cells = line2d_cells(IVec3::new(0, 0, 0), IVec3::new(4, 0, 0), 1);
    assert_eq!(cells.len(), 5);
}

#[test]
fn line2d_single_point() {
    let cells = line2d_cells(IVec3::new(2, 0, 2), IVec3::new(2, 0, 2), 1);
    assert_eq!(cells.len(), 1);
    assert_eq!(cells[0], IVec3::new(2, 0, 2));
}

#[test]
fn extrude_thickness_1_returns_input() {
    let base = vec![IVec3::new(0, 5, 0), IVec3::new(1, 5, 0)];
    let out = extrude(&base, 1, 1, 1);
    assert_eq!(out.len(), 2);
    assert_eq!(set(out), set(base));
}

#[test]
fn extrude_positive_sign_advances_axis() {
    let base = vec![IVec3::new(0, 0, 0)];
    let out = extrude(&base, 1, 3, 1);
    assert_eq!(
        out,
        vec![IVec3::new(0, 0, 0), IVec3::new(0, 1, 0), IVec3::new(0, 2, 0)]
    );
}

#[test]
fn extrude_negative_sign_retreats_axis() {
    let base = vec![IVec3::new(0, 5, 0)];
    let out = extrude(&base, 1, 3, -1);
    assert_eq!(
        out,
        vec![IVec3::new(0, 5, 0), IVec3::new(0, 4, 0), IVec3::new(0, 3, 0)]
    );
}

#[test]
fn extrude_zero_sign_treated_as_positive() {
    let base = vec![IVec3::new(0, 0, 0)];
    let out = extrude(&base, 1, 2, 0);
    assert_eq!(out, vec![IVec3::new(0, 0, 0), IVec3::new(0, 1, 0)]);
}

#[test]
fn extrude_thickness_clamped_to_1() {
    let base = vec![IVec3::new(0, 0, 0)];
    let out = extrude(&base, 1, 0, 1);
    assert_eq!(out, vec![IVec3::new(0, 0, 0)]);
}

#[test]
fn compute_shape_rect_3x3_thickness_1() {
    let cells = compute_shape_cells(
        ShapePrimitive::Rectangle,
        IVec3::new(0, 5, 0),
        IVec3::new(2, 5, 2),
        1,
        0,
        1,
    );
    assert_eq!(cells.len(), 9);
    for c in &cells {
        assert_eq!(c.y, 5);
    }
}

#[test]
fn compute_shape_rect_3x3_thickness_3() {
    let cells = compute_shape_cells(
        ShapePrimitive::Rectangle,
        IVec3::new(0, 5, 0),
        IVec3::new(2, 5, 2),
        1,
        2,
        1,
    );
    assert_eq!(cells.len(), 27);
    let ys: HashSet<i32> = cells.iter().map(|c| c.y).collect();
    let mut ys: Vec<_> = ys.into_iter().collect();
    ys.sort();
    assert_eq!(ys, vec![5, 6, 7]);
}

#[test]
fn compute_shape_ellipse_5x5() {
    let cells = compute_shape_cells(
        ShapePrimitive::Ellipse,
        IVec3::new(0, 0, 0),
        IVec3::new(4, 0, 4),
        1,
        0,
        1,
    );
    let s: HashSet<(i32, i32, i32)> = cells.iter().map(|p| (p.x, p.y, p.z)).collect();
    assert!(s.contains(&(2, 0, 2)));
    // Corners of bounding 5×5 rect should be outside an inscribed ellipse.
    assert!(!s.contains(&(0, 0, 0)));
    assert!(!s.contains(&(4, 0, 4)));
}

#[test]
fn compute_shape_line_endpoints() {
    let cells = compute_shape_cells(
        ShapePrimitive::Line,
        IVec3::new(0, 0, 0),
        IVec3::new(5, 0, 2),
        1,
        0,
        1,
    );
    let s: HashSet<(i32, i32, i32)> = cells.iter().map(|p| (p.x, p.y, p.z)).collect();
    assert!(s.contains(&(0, 0, 0)));
    assert!(s.contains(&(5, 0, 2)));
}

#[test]
fn cell_bounds_empty_returns_none() {
    assert_eq!(cell_bounds(&[]), None);
}

#[test]
fn cell_bounds_single_cell() {
    let cells = vec![IVec3::new(3, 5, 7)];
    assert_eq!(cell_bounds(&cells), Some(IVec3::new(1, 1, 1)));
}

#[test]
fn cell_bounds_multiple_cells() {
    let cells = vec![IVec3::new(1, 2, 3), IVec3::new(5, 6, 7)];
    // extents = max - min + 1
    assert_eq!(cell_bounds(&cells), Some(IVec3::new(5, 5, 5)));
}

#[test]
fn cell_bounds_negative_coords() {
    let cells = vec![IVec3::new(-3, -2, -1), IVec3::new(1, 2, 3)];
    assert_eq!(cell_bounds(&cells), Some(IVec3::new(5, 5, 5)));
}

#[test]
fn other_axes_are_the_two_remaining_axes() {
    assert_eq!(other_axes(0), (1, 2));
    assert_eq!(other_axes(1), (0, 2));
    assert_eq!(other_axes(2), (0, 1));
}

#[test]
fn rect_cells_come_in_u_then_v_order() {
    let cells = rect_cells(IVec3::new(1, 0, 1), IVec3::new(0, 0, 0), 1, true);
    assert_eq!(
        cells,
        vec![
            IVec3::new(0, 0, 0),
            IVec3::new(0, 0, 1),
            IVec3::new(1, 0, 0),
            IVec3::new(1, 0, 1)
        ]
    );
}

#[test]
fn line2d_diagonal_steps_both_axes() {
    let cells = line2d_cells(IVec3::new(0, 3, 0), IVec3::new(2, 3, 2), 1);
    assert_eq!(
        cells,
        vec![IVec3::new(0, 3, 0), IVec3::new(1, 3, 1), IVec3::new(2, 3, 2)]
    );
}

#[test]
fn negative_thickness_extrudes_against_normal() {
    let cells = compute_shape_cells(
        ShapePrimitive::Rectangle,
        IVec3::new(0, 5, 0),
        IVec3::new(0, 5, 0),
        1,
        -2,
        1,
    );
    assert_eq!(
        cells,
        vec![IVec3::new(0, 5, 0), IVec3::new(0, 4, 0), IVec3::new(0, 3, 0)]
    );
}

#[test]
fn single_cell_ellipse_is_the_cell() {
    let cells = ellipse_cells(IVec3::new(3, 1, 3), IVec3::new(3, 1, 3), 1, true);
    assert_eq!(cells, vec![IVec3::new(3, 1, 3)]);
}
