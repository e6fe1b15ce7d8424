use roxel::geom::IVec3;
use roxel::gox::{export, import, parse, write_chunk, write_dict_entry, GoxError, BLOCK_BYTES};
use roxel::grid::VoxelGrid;
use roxel::reader::ReadError;

fn chunks(bytes: &[u8]) -> Vec<([u8; 4], Vec<u8>)> {
    let mut out = Vec::new();
    let mut pos = 8;
    while pos + 8 <= bytes.len() {
        let typ = [bytes[pos], bytes[pos + 1], bytes[pos + 2], bytes[pos + 3]];
        let size = i32::from_le_bytes(bytes[pos + 4..pos + 8].try_into().unwrap()) as usize;
        out.push((typ, bytes[pos + 8..pos + 8 + size].to_vec()));
        pos += 8 + size + 4;
    }
    out
}

#[test]
fn export_writes_magic_and_version() {
    let mut g = VoxelGrid::default();
    g.set(IVec3::new(0, 0, 0), Some([1, 2, 3, 255]));
    let bytes = export(&g);
    assert_eq!(&bytes[0..4], b"GOX ");
    let version = i32::from_le_bytes(bytes[4..8].try_into().unwrap());
    assert_eq!(version, 2);
}

#[test]
fn empty_grid_export_then_import_yields_empty_grid() {
    let g = VoxelGrid::default();
    let bytes = export(&g);
    let mut g2 = VoxelGrid::default();
    g2.set(IVec3::new(0, 0, 0), Some([9, 9, 9, 255]));
    let count_before = g2.count();
    let result = import(&bytes, &mut g2);
    assert!(result.is_ok());
    assert_eq!(g2.count(), count_before);
}

#[test]
fn roundtrip_preserves_voxels_across_block_boundary() {
    let mut g = VoxelGrid::default();
    let pts: [(IVec3, [u8; 4]); 4] = [
        (IVec3::new(0, 0, 0), [255, 0, 0, 255]),
        (IVec3::new(15, 5, 7), [0, 255, 0, 255]),
        (IVec3::new(20, 20, 20), [0, 0, 255, 255]),
        (IVec3::new(63, 63, 63), [200, 100, 50, 255]),
    ];
    for (p, c) in pts {
        g.set(p, Some(c));
    }
    let bytes = export(&g);
    let mut g2 = VoxelGrid::default();
    import(&bytes, &mut g2).unwrap();
    for (p, c) in pts {
        assert_eq!(g2.get(p), Some(c), "voxel at {:?} mismatch", p);
    }
    assert_eq!(g2.count(), 4);
}

#[test]
fn roundtrip_handles_negative_coords() {
    let mut g = VoxelGrid::default();
    let pts: [(IVec3, [u8; 4]); 2] = [
        (IVec3::new(-30, 5, -10), [10, 20, 30, 255]),
        (IVec3::new(15, 0, 7), [40, 50, 60, 255]),
    ];
    for (p, c) in pts {
        g.set(p, Some(c));
    }
    let bytes = export(&g);
    let mut g2 = VoxelGrid::default();
    import(&bytes, &mut g2).unwrap();
    for (p, c) in pts {
        assert_eq!(g2.get(p), Some(c), "voxel at {p:?} mismatch");
    }
}

#[test]
fn export_remaps_y_up_to_z_up() {
    let mut g = VoxelGrid::default();
    g.set(IVec3::new(0, 5, 0), Some([10, 20, 30, 255]));
    let bytes = export(&g);
    let block = chunks(&bytes)
        .into_iter()
        .find(|(t, _)| t == b"BL16")
        .map(|(_, d)| d)
        .expect("BL16 present");
    assert_eq!(block.len(), BLOCK_BYTES);
    // (0, 5, 0) sits at block-local (0, 5, 0): byte (5 * 256) * 4 = 5120.
    let off = 5120;
    assert_eq!(&block[off..off + 4], &[10, 20, 30, 255]);
}

#[test]
fn export_sorts_blocks_and_places_each_at_its_position() {
    let mut g = VoxelGrid::default();
    g.set(IVec3::new(40, 3, -1), Some([1, 1, 1, 255]));
    g.set(IVec3::new(-1, 0, 0), Some([2, 2, 2, 255]));
    let bytes = export(&g);
    let cs = chunks(&bytes);
    let kinds: Vec<[u8; 4]> = cs.iter().map(|(t, _)| *t).collect();
    assert_eq!(kinds, vec![*b"IMG ", *b"BL16", *b"BL16", *b"LAYR"]);
    let layr = &cs[3].1;
    assert_eq!(i32::from_le_bytes(layr[0..4].try_into().unwrap()), 2);
    let rd = |o: usize| i32::from_le_bytes(layr[o..o + 4].try_into().unwrap());
    // First block (-1, 0, 0): index 0 at Goxel (-16, 0, 0).
    assert_eq!((rd(4), rd(8), rd(12), rd(16)), (0, -16, 0, 0));
    // Second block (2, 0, -1): index 1 at Goxel (32, -16, 0).
    assert_eq!((rd(28), rd(32), rd(36), rd(40)), (1, 32, -16, 0));
}

#[test]
fn import_rejects_png_encoded_block() {
    let mut buf = Vec::new();
    buf.extend_from_slice(b"GOX ");
    buf.extend_from_slice(&2i32.to_le_bytes());
    let payload = [0x89, 0x50, 0x4E, 0x47, 0x0D, 0x0A, 0x1A, 0x0A];
    buf.extend_from_slice(b"BL16");
    buf.extend_from_slice(&(payload.len() as i32).to_le_bytes());
    buf.extend_from_slice(&payload);
    buf.extend_from_slice(&0i32.to_le_bytes());
    let mut g = VoxelGrid::default();
    assert!(matches!(import(&buf, &mut g), Err(GoxError::PngBlock)));
}

#[test]
fn gox_import_rejects_bad_magic() {
    let mut g = VoxelGrid::default();
    assert!(matches!(
        import(b"NOPE\x00\x00\x00\x00", &mut g),
        Err(GoxError::BadMagic)
    ));
}

#[test]
fn import_rejects_odd_block_size() {
    let mut buf = Vec::new();
    buf.extend_from_slice(b"GOX ");
    buf.extend_from_slice(&2i32.to_le_bytes());
    buf.extend_from_slice(b"BL16");
    buf.extend_from_slice(&3i32.to_le_bytes());
    buf.extend_from_slice(&[1, 2, 3]);
    buf.extend_from_slice(&0i32.to_le_bytes());
    assert!(matches!(parse(&buf), Err(GoxError::BadBlockSize { got: 3 })));
}

#[test]
fn import_without_layer_fails() {
    let mut buf = Vec::new();
    buf.extend_from_slice(b"GOX ");
    buf.extend_from_slice(&2i32.to_le_bytes());
    assert!(matches!(parse(&buf), Err(GoxError::NoLayer)));
}

#[test]
fn import_reports_truncated_chunk_offset() {
    let mut buf = Vec::new();
    buf.extend_from_slice(b"GOX ");
    buf.extend_from_slice(&2i32.to_le_bytes());
    buf.extend_from_slice(b"LAY");
    assert_eq!(
        parse(&buf).err(),
        Some(GoxError::Read(ReadError::UnexpectedEof { offset: 8 }))
    );
}

#[test]
fn import_reports_truncated_layer_entry_offset() {
    let mut layr = Vec::new();
    layr.extend_from_slice(&1i32.to_le_bytes());
    layr.extend_from_slice(&0i32.to_le_bytes());
    layr.extend_from_slice(&0i32.to_le_bytes());
    let mut buf = Vec::new();
    buf.extend_from_slice(b"GOX ");
    buf.extend_from_slice(&2i32.to_le_bytes());
    write_chunk(&mut buf, b"LAYR", &layr);
    // The entry's y field starts at offset 12 of the layer data.
    assert_eq!(
        parse(&buf).err(),
        Some(GoxError::Read(ReadError::UnexpectedEof { offset: 12 }))
    );
}

#[test]
fn import_drops_voxels_below_floor() {
    let mut block = vec![0u8; BLOCK_BYTES];
    block[0..4].copy_from_slice(&[5, 6, 7, 255]);
    let mut layr = Vec::new();
    layr.extend_from_slice(&1i32.to_le_bytes());
    for v in [0i32, 0, 0, -16] {
        layr.extend_from_slice(&v.to_le_bytes());
    }
    layr.extend_from_slice(&[0u8; 8]);
    let mut buf = Vec::new();
    buf.extend_from_slice(b"GOX ");
    buf.extend_from_slice(&2i32.to_le_bytes());
    write_chunk(&mut buf, b"BL16", &block);
    write_chunk(&mut buf, b"LAYR", &layr);
    let mut g = VoxelGrid::default();
    assert_eq!(import(&buf, &mut g), Ok(1));
    assert_eq!(g.count(), 0);
}

#[test]
fn write_chunk_frames_data() {
    let mut out = Vec::new();
    write_chunk(&mut out, b"ABCD", &[9, 8]);
    assert_eq!(out, vec![b'A', b'B', b'C', b'D', 2, 0, 0, 0, 9, 8, 0, 0, 0, 0]);
}

#[test]
fn write_dict_entry_lengths_and_bytes() {
    let mut out = Vec::new();
    write_dict_entry(&mut out, "ab", &[1]);
    assert_eq!(out, vec![2, 0, 0, 0, b'a', b'b', 1, 0, 0, 0, 1]);
}
