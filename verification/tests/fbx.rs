use roxel::fbx::{build_mesh, export, write_footer, FbxBuilder, FbxMesh};
use roxel::geom::IVec3;
use roxel::grid::VoxelGrid;

const FOOT_MAGIC: [u8; 16] = [
    0xfa, 0xbc, 0xab, 0x09, 0xd0, 0xc8, 0xd4, 0x66, 0xb1, 0x76, 0xfb, 0x83, 0x1c, 0xf7, 0x26, 0x7e,
];

fn file_of(m: &FbxMesh) -> Vec<u8> {
    let verts: Vec<u64> = m.verts.iter().map(|&v| (v as f64).to_bits()).collect();
    let normals: Vec<u64> = m.normals.iter().map(|&v| (v as f64).to_bits()).collect();
    let colors: Vec<u64> = m.colors.iter().map(|&c| (c as f64 / 255.0).to_bits()).collect();
    export(&verts, &m.polys, &normals, &colors)
}

fn one_voxel() -> VoxelGrid {
    let mut g = VoxelGrid::default();
    g.set(IVec3::new(0, 0, 0), Some([100, 100, 100, 255]));
    g
}

#[test]
fn export_writes_header_magic_and_version() {
    let bytes = file_of(&build_mesh(&one_voxel()));
    assert_eq!(&bytes[0..20], b"Kaydara FBX Binary  ");
    assert_eq!(bytes[20], 0x00);
    assert_eq!(bytes[21], 0x1a);
    assert_eq!(bytes[22], 0x00);
    let version = u32::from_le_bytes([bytes[23], bytes[24], bytes[25], bytes[26]]);
    assert_eq!(version, 7400);
}

#[test]
fn export_terminates_with_foot_magic() {
    let bytes = file_of(&build_mesh(&one_voxel()));
    let tail = &bytes[bytes.len() - FOOT_MAGIC.len()..];
    assert_eq!(tail, &FOOT_MAGIC);
}

#[test]
fn build_mesh_single_voxel_emits_six_quads() {
    let mut g = VoxelGrid::default();
    g.set(IVec3::new(0, 0, 0), Some([1, 2, 3, 255]));
    let m = build_mesh(&g);
    assert_eq!(m.verts.len(), 72);
    assert_eq!(m.polys.len(), 24);
    assert_eq!(m.normals.len(), 72);
    assert_eq!(m.colors.len(), 96);
}

#[test]
fn build_mesh_adjacent_voxels_drop_shared_face() {
    let mut g = VoxelGrid::default();
    g.set(IVec3::new(0, 0, 0), Some([1, 2, 3, 255]));
    g.set(IVec3::new(1, 0, 0), Some([4, 5, 6, 255]));
    let m = build_mesh(&g);
    assert_eq!(m.polys.len(), 40);
}

#[test]
fn polygon_index_run_terminates_with_negated_last() {
    let mut g = VoxelGrid::default();
    g.set(IVec3::new(0, 0, 0), Some([1, 2, 3, 255]));
    let m = build_mesh(&g);
    for chunk in m.polys.chunks_exact(4) {
        assert!(chunk[3] < 0, "expected negated terminator, got {}", chunk[3]);
    }
    assert_eq!(&m.polys[0..8], &[0, 1, 2, -4, 4, 5, 6, -8]);
}

#[test]
fn fbx_mesh_corners_and_colors_of_a_voxel() {
    let mut g = VoxelGrid::default();
    g.set(IVec3::new(2, 3, 4), Some([9, 8, 7, 6]));
    let m = build_mesh(&g);
    // +x face first: corners (3,3,4) (3,3,5) (3,4,5) (3,4,4), normal +x.
    assert_eq!(&m.verts[0..12], &[3, 3, 4, 3, 3, 5, 3, 4, 5, 3, 4, 4]);
    assert_eq!(&m.normals[0..3], &[1, 0, 0]);
    assert_eq!(&m.colors[0..8], &[9, 8, 7, 6, 9, 8, 7, 6]);
}

#[test]
fn leaf_record_layout() {
    let mut b = FbxBuilder::new();
    b.leaf_i32("A", 7);
    assert_eq!(
        b.written(),
        &[46, 0, 0, 0, 1, 0, 0, 0, 5, 0, 0, 0, 1, b'A', b'I', 7, 0, 0, 0]
    );
}

#[test]
fn nested_record_has_null_trailer_and_offsets() {
    let mut b = FbxBuilder::new();
    b.begin("N");
    b.leaf_i32("A", 7);
    b.end();
    let w = b.written();
    assert_eq!(w.len(), 46);
    assert_eq!(u32::from_le_bytes(w[0..4].try_into().unwrap()), 27 + 46);
    assert_eq!(u32::from_le_bytes(w[4..8].try_into().unwrap()), 0);
    assert_eq!(u32::from_le_bytes(w[8..12].try_into().unwrap()), 0);
    assert_eq!(&w[12..14], &[1, b'N']);
    assert_eq!(u32::from_le_bytes(w[14..18].try_into().unwrap()), 27 + 33);
    assert_eq!(&w[33..46], &[0u8; 13]);
}

#[test]
fn string_and_raw_props() {
    let mut b = FbxBuilder::new();
    b.begin("S");
    b.prop_str("ab");
    b.prop_raw(&[9, 9]);
    b.prop_bool(true);
    b.prop_i64(-2);
    b.end();
    let w = b.written();
    assert_eq!(u32::from_le_bytes(w[4..8].try_into().unwrap()), 4);
    assert_eq!(u32::from_le_bytes(w[8..12].try_into().unwrap()), 7 + 7 + 2 + 9);
    assert_eq!(&w[14..21], &[b'S', 2, 0, 0, 0, b'a', b'b']);
    assert_eq!(&w[21..28], &[b'R', 2, 0, 0, 0, 9, 9]);
    assert_eq!(&w[28..30], &[b'C', 1]);
    assert_eq!(&w[30..39], &[b'L', 0xfe, 0xff, 0xff, 0xff, 0xff, 0xff, 0xff, 0xff]);
}

#[test]
fn array_props_are_uncompressed() {
    let mut b = FbxBuilder::new();
    b.begin("V");
    b.prop_arr_i32(&[1, -1]);
    b.prop_arr_f64(&[1.0f64.to_bits()]);
    b.end();
    let w = b.written();
    assert_eq!(&w[14..27], &[b'i', 2, 0, 0, 0, 0, 0, 0, 0, 8, 0, 0, 0]);
    assert_eq!(&w[27..35], &[1, 0, 0, 0, 0xff, 0xff, 0xff, 0xff]);
    assert_eq!(&w[35..48], &[b'd', 1, 0, 0, 0, 0, 0, 0, 0, 8, 0, 0, 0]);
    assert_eq!(&w[48..56], &1.0f64.to_le_bytes());
}

#[test]
fn footer_pads_to_sixteen() {
    for len in 0..40usize {
        let mut buf = vec![0u8; len];
        write_footer(&mut buf);
        let pad = buf.len() - len - 16 - 4 - 4 - 120 - 16;
        assert!(pad >= 4 && pad < 20);
        assert_eq!((27 + len + 16 + pad) % 16, 0);
        assert_eq!(&buf[buf.len() - 16..], &FOOT_MAGIC);
    }
}

#[test]
fn record_end_offsets_are_file_offsets() {
    let bytes = file_of(&build_mesh(&one_voxel()));
    // The first top-level record starts right after the 27 header bytes and
    // its end offset is where the next record starts in the file.
    let end = u32::from_le_bytes(bytes[27..31].try_into().unwrap()) as usize;
    assert!(end > 27 && end < bytes.len());
    let next_end = u32::from_le_bytes(bytes[end..end + 4].try_into().unwrap()) as usize;
    assert!(next_end > end && next_end < bytes.len());
    // The footer padding ends on a 16-byte file offset.
    let pad_end = bytes.len() - 16 - 120 - 4 - 4;
    assert_eq!(pad_end % 16, 0);
}
