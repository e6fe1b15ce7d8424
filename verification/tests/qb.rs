use roxel::geom::IVec3;
use roxel::grid::VoxelGrid;
use roxel::qb::{import, read_cells, QbError, CODEFLAG, NEXTSLICE};
use roxel::reader::ReadError;

fn push_u32(buf: &mut Vec<u8>, v: u32) {
    buf.extend_from_slice(&v.to_le_bytes());
}
fn push_i32(buf: &mut Vec<u8>, v: i32) {
    buf.extend_from_slice(&v.to_le_bytes());
}
fn rgba(r: u8, g: u8, b: u8, a: u8) -> u32 {
    u32::from_le_bytes([r, g, b, a])
}
fn header(buf: &mut Vec<u8>, compressed: bool, color_format: u32, num_matrices: u32) {
    push_u32(buf, 257);
    push_u32(buf, color_format);
    push_u32(buf, 1);
    push_u32(buf, if compressed { 1 } else { 0 });
    push_u32(buf, 0);
    push_u32(buf, num_matrices);
}
fn matrix_header(buf: &mut Vec<u8>, name: &str, size: (u32, u32, u32), pos: (i32, i32, i32)) {
    buf.push(name.len() as u8);
    buf.extend_from_slice(name.as_bytes());
    push_u32(buf, size.0);
    push_u32(buf, size.1);
    push_u32(buf, size.2);
    push_i32(buf, pos.0);
    push_i32(buf, pos.1);
    push_i32(buf, pos.2);
}

#[test]
fn import_uncompressed_single_voxel() {
    let mut buf = Vec::new();
    header(&mut buf, false, 0, 1);
    matrix_header(&mut buf, "m", (2, 1, 1), (0, 0, 0));
    push_u32(&mut buf, 0);
    push_u32(&mut buf, rgba(200, 50, 25, 255));
    let mut g = VoxelGrid::default();
    assert_eq!(import(&buf, &mut g), Ok(0));
    assert_eq!(g.get(IVec3::new(0, 0, 0)), None);
    assert_eq!(g.get(IVec3::new(1, 0, 0)), Some([200, 50, 25, 255]));
}

#[test]
fn import_rle_run_expands() {
    let mut buf = Vec::new();
    header(&mut buf, true, 0, 1);
    matrix_header(&mut buf, "m", (4, 1, 1), (0, 0, 0));
    push_u32(&mut buf, CODEFLAG);
    push_u32(&mut buf, 4);
    push_u32(&mut buf, rgba(0, 200, 0, 255));
    push_u32(&mut buf, NEXTSLICE);
    let mut g = VoxelGrid::default();
    import(&buf, &mut g).unwrap();
    for x in 0..4 {
        assert_eq!(g.get(IVec3::new(x, 0, 0)), Some([0, 200, 0, 255]));
    }
}

#[test]
fn import_bgra_color_format_swizzles() {
    let mut buf = Vec::new();
    header(&mut buf, false, 1, 1);
    matrix_header(&mut buf, "m", (1, 1, 1), (0, 0, 0));
    push_u32(&mut buf, rgba(10, 20, 30, 255));
    let mut g = VoxelGrid::default();
    import(&buf, &mut g).unwrap();
    assert_eq!(g.get(IVec3::new(0, 0, 0)), Some([30, 20, 10, 255]));
}

#[test]
fn import_uses_first_matrix_only() {
    let mut buf = Vec::new();
    header(&mut buf, false, 0, 2);
    matrix_header(&mut buf, "a", (1, 1, 1), (0, 0, 0));
    push_u32(&mut buf, rgba(1, 2, 3, 255));
    matrix_header(&mut buf, "b", (1, 1, 1), (20, 0, 0));
    push_u32(&mut buf, rgba(99, 99, 99, 255));
    let mut g = VoxelGrid::default();
    import(&buf, &mut g).unwrap();
    assert_eq!(g.get(IVec3::new(0, 0, 0)), Some([1, 2, 3, 255]));
    assert_eq!(g.get(IVec3::new(20, 0, 0)), None);
}

#[test]
fn import_places_matrix_at_its_position_and_drops_below_floor() {
    let mut buf = Vec::new();
    header(&mut buf, false, 0, 1);
    matrix_header(&mut buf, "m", (1, 2, 1), (130, -1, 4));
    push_u32(&mut buf, rgba(50, 50, 50, 255));
    push_u32(&mut buf, rgba(60, 60, 60, 255));
    let mut g = VoxelGrid::default();
    assert_eq!(import(&buf, &mut g), Ok(1));
    assert_eq!(g.count(), 1);
    assert_eq!(g.get(IVec3::new(130, 0, 4)), Some([60, 60, 60, 255]));
}

#[test]
fn import_without_matrices_fails() {
    let mut buf = Vec::new();
    header(&mut buf, false, 0, 0);
    let mut g = VoxelGrid::default();
    assert_eq!(import(&buf, &mut g), Err(QbError::NoMatrices));
}

#[test]
fn import_truncated_keeps_cells_read_before() {
    let mut buf = Vec::new();
    header(&mut buf, false, 0, 1);
    matrix_header(&mut buf, "m", (3, 1, 1), (0, 0, 0));
    push_u32(&mut buf, rgba(1, 1, 1, 255));
    let data_start = buf.len() - 4;
    let mut g = VoxelGrid::default();
    assert_eq!(
        import(&buf, &mut g),
        Err(QbError::Read(ReadError::UnexpectedEof { offset: data_start + 4 }))
    );
    assert_eq!(g.get(IVec3::new(0, 0, 0)), Some([1, 1, 1, 255]));
}

#[test]
fn rle_zero_width_is_refused() {
    let mut buf = Vec::new();
    header(&mut buf, true, 0, 1);
    matrix_header(&mut buf, "m", (0, 1, 1), (0, 0, 0));
    push_u32(&mut buf, rgba(1, 1, 1, 255));
    let (cells, err) = read_cells(&buf);
    assert!(cells.is_empty());
    assert_eq!(err, Some(QbError::ZeroWidth));
}

#[test]
fn rle_slices_and_rows_wrap_by_width() {
    let mut buf = Vec::new();
    header(&mut buf, true, 0, 1);
    matrix_header(&mut buf, "m", (2, 2, 2), (0, 0, 0));
    push_u32(&mut buf, rgba(1, 0, 0, 0));
    push_u32(&mut buf, rgba(2, 0, 0, 255));
    push_u32(&mut buf, rgba(3, 0, 0, 255));
    push_u32(&mut buf, NEXTSLICE);
    push_u32(&mut buf, rgba(4, 0, 0, 255));
    push_u32(&mut buf, NEXTSLICE);
    let (cells, err) = read_cells(&buf);
    assert_eq!(err, None);
    assert_eq!(
        cells,
        vec![
            (IVec3::new(1, 0, 0), [2, 0, 0, 255]),
            (IVec3::new(0, 1, 0), [3, 0, 0, 255]),
            (IVec3::new(0, 0, 1), [4, 0, 0, 255]),
        ]
    );
}
