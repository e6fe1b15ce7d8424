use roxel::geom::IVec3;
use roxel::gltf::{align4, build_json, build_mesh, pad_to_4, write_glb, GlbMesh};
use roxel::grid::VoxelGrid;

#[test]
fn align4_rounds_up() {
    assert_eq!(align4(0), 0);
    assert_eq!(align4(1), 4);
    assert_eq!(align4(4), 4);
    assert_eq!(align4(13), 16);
}

#[test]
fn pad_to_4_appends_zeros() {
    let mut v = vec![1u8, 2, 3, 4, 5];
    pad_to_4(&mut v);
    assert_eq!(v, vec![1, 2, 3, 4, 5, 0, 0, 0]);
    pad_to_4(&mut v);
    assert_eq!(v.len(), 8);
}

#[test]
fn glb_header_and_chunks() {
    let json = b"{}  ".to_vec();
    let bin = vec![7u8; 8];
    let glb = write_glb(&json, &bin);
    assert_eq!(&glb[0..4], b"glTF");
    assert_eq!(u32::from_le_bytes(glb[4..8].try_into().unwrap()), 2);
    assert_eq!(u32::from_le_bytes(glb[8..12].try_into().unwrap()) as usize, glb.len());
    assert_eq!(u32::from_le_bytes(glb[12..16].try_into().unwrap()), 4);
    assert_eq!(&glb[16..20], b"JSON");
    assert_eq!(&glb[20..24], b"{}  ");
    assert_eq!(u32::from_le_bytes(glb[24..28].try_into().unwrap()), 8);
    assert_eq!(&glb[28..32], b"BIN\0");
    assert_eq!(&glb[32..], &bin[..]);
}

#[test]
fn single_voxel_mesh_has_six_quads() {
    let mut g = VoxelGrid::default();
    g.set(IVec3::new(2, 0, 3), Some([1, 2, 3, 255]));
    let m = build_mesh(&g);
    assert_eq!(m.positions.len(), 24);
    assert_eq!(m.normals.len(), 24);
    assert_eq!(m.colors.len(), 24);
    assert_eq!(m.indices.len(), 36);
    assert_eq!(&m.indices[0..6], &[0, 1, 2, 0, 2, 3]);
    assert_eq!(&m.indices[6..12], &[4, 5, 6, 4, 6, 7]);
    assert_eq!(m.pos_min, IVec3::new(2, 0, 3));
    assert_eq!(m.pos_max, IVec3::new(3, 1, 4));
    // +x face first: corners (1,0,0) (1,0,1) (1,1,1) (1,1,0) around the cell.
    assert_eq!(m.positions[0], IVec3::new(3, 0, 3));
    assert_eq!(m.positions[1], IVec3::new(3, 0, 4));
    assert_eq!(m.positions[2], IVec3::new(3, 1, 4));
    assert_eq!(m.positions[3], IVec3::new(3, 1, 3));
    assert_eq!(m.normals[0], IVec3::new(1, 0, 0));
}

#[test]
fn touching_voxels_hide_shared_faces() {
    let mut g = VoxelGrid::default();
    g.set(IVec3::new(0, 0, 0), Some([1, 1, 1, 255]));
    g.set(IVec3::new(1, 0, 0), Some([2, 2, 2, 255]));
    let m = build_mesh(&g);
    assert_eq!(m.positions.len(), 40);
}

#[test]
fn empty_mesh_json_mentions_zero_bounds() {
    let g = VoxelGrid::default();
    let m: GlbMesh = build_mesh(&g);
    let json = build_json(&m, 0);
    assert_eq!(json.len() % 4, 0);
    let text = String::from_utf8(json).unwrap();
    assert!(text.starts_with("{\"asset\":{\"version\":\"2.0\""));
    assert!(text.contains("\"min\":[0,0,0],\"max\":[0,0,0]"));
    assert!(text.trim_end().ends_with("\"buffers\":[{\"byteLength\":0}]}"));
}

#[test]
fn json_lays_out_buffer_views() {
    let mut g = VoxelGrid::default();
    g.set(IVec3::new(-1, 0, 0), Some([1, 2, 3, 255]));
    let m = build_mesh(&g);
    let text = String::from_utf8(build_json(&m, 1000)).unwrap();
    assert!(text.contains("\"count\":24,\"type\":\"VEC3\",\"min\":[-1,0,0],\"max\":[0,1,1]"));
    assert!(text.contains("\"byteOffset\":0,\"byteLength\":288,"));
    assert!(text.contains("\"byteOffset\":288,\"byteLength\":288,"));
    assert!(text.contains("\"byteOffset\":576,\"byteLength\":96,"));
    assert!(text.contains("\"byteOffset\":672,\"byteLength\":144,"));
    assert!(text.contains("{\"byteLength\":1000}"));
}
