use roxel::ase::{export, import, utf16be_with_null, write_group_end, AseColor, AseError};

fn bits(c: [u8; 4]) -> [u32; 3] {
    [
        (c[0] as f32 / 255.0).to_bits(),
        (c[1] as f32 / 255.0).to_bits(),
        (c[2] as f32 / 255.0).to_bits(),
    ]
}

fn to_u8(bits: u32) -> u8 {
    (f32::from_bits(bits).clamp(0.0, 1.0) * 255.0).round() as u8
}

#[test]
fn export_writes_asef_signature_and_block_count() {
    let colors = vec![[10, 20, 30, 255], [200, 100, 50, 255]];
    let b: Vec<[u32; 3]> = colors.iter().map(|c| bits(*c)).collect();
    let bytes = export("MyPal", &b);
    assert_eq!(&bytes[0..4], b"ASEF");
    assert_eq!(u16::from_be_bytes([bytes[4], bytes[5]]), 1);
    assert_eq!(u16::from_be_bytes([bytes[6], bytes[7]]), 0);
    assert_eq!(u32::from_be_bytes([bytes[8], bytes[9], bytes[10], bytes[11]]), 4);
}

#[test]
fn roundtrip_preserves_rgb_and_group_name() {
    let colors = vec![[0, 0, 0, 255], [255, 255, 255, 255], [128, 64, 200, 255]];
    let b: Vec<[u32; 3]> = colors.iter().map(|c| bits(*c)).collect();
    let bytes = export("Greys", &b);
    let pal = import(&bytes).ok().expect("import");
    assert_eq!(pal.group_name, Some(String::from("Greys")));
    assert_eq!(pal.colors.len(), colors.len());
    for (a, c) in colors.iter().zip(pal.colors.iter()) {
        match c {
            AseColor::Rgb { r, g, b } => {
                assert_eq!([to_u8(*r), to_u8(*g), to_u8(*b)], [a[0], a[1], a[2]]);
            }
            _ => panic!("expected RGB"),
        }
    }
}

#[test]
fn import_rejects_bad_signature() {
    let r = import(b"NOPE\x00\x01\x00\x00\x00\x00\x00\x00");
    assert!(matches!(r, Err(AseError::BadSignature)));
}

#[test]
fn import_empty_group_name_is_none() {
    let bytes = export("", &[bits([1, 2, 3, 255])]);
    let pal = import(&bytes).ok().expect("import");
    assert_eq!(pal.group_name, None);
    assert_eq!(pal.colors.len(), 1);
}

#[test]
fn import_truncated_fails() {
    let bytes = export("X", &[bits([1, 2, 3, 255])]);
    let cut = &bytes[..bytes.len() - 10];
    assert!(matches!(import(cut), Err(AseError::UnexpectedEof)));
}

#[test]
fn import_reads_gray_and_cmyk_and_skips_lab() {
    let mut buf: Vec<u8> = Vec::new();
    buf.extend_from_slice(b"ASEF");
    buf.extend_from_slice(&1u16.to_be_bytes());
    buf.extend_from_slice(&0u16.to_be_bytes());
    buf.extend_from_slice(&3u32.to_be_bytes());
    let block = |model: &[u8; 4], vals: &[u32]| {
        let mut p: Vec<u8> = Vec::new();
        p.extend_from_slice(&1u16.to_be_bytes());
        p.extend_from_slice(&[0, 0]);
        p.extend_from_slice(model);
        for v in vals {
            p.extend_from_slice(&v.to_be_bytes());
        }
        p.extend_from_slice(&2u16.to_be_bytes());
        let mut b: Vec<u8> = Vec::new();
        b.extend_from_slice(&1u16.to_be_bytes());
        b.extend_from_slice(&(p.len() as u32).to_be_bytes());
        b.extend_from_slice(&p);
        b
    };
    buf.extend_from_slice(&block(b"Gray", &[7]));
    buf.extend_from_slice(&block(b"LAB ", &[1, 2, 3]));
    buf.extend_from_slice(&block(b"CMYK", &[1, 2, 3, 4]));
    let pal = import(&buf).ok().expect("import");
    assert_eq!(
        pal.colors,
        vec![
            AseColor::Gray { v: 7 },
            AseColor::Cmyk { c: 1, m: 2, y: 3, k: 4 }
        ]
    );
}

#[test]
fn utf16_encodes_with_terminator() {
    assert_eq!(utf16be_with_null("A"), vec![0, 0x41, 0, 0]);
    // U+1F600 is a surrogate pair.
    assert_eq!(utf16be_with_null("\u{1F600}"), vec![0xD8, 0x3D, 0xDE, 0x00, 0, 0]);
}

#[test]
fn swatches_are_numbered_from_001() {
    let bytes = export("P", &[bits([1, 2, 3, 255])]);
    // Signature(4) + version(4) + count(4) + group start block:
    // type 2 + len 4 + count 2 + "P\0" 4 = 12 bytes; then the color block.
    let color = &bytes[24..];
    assert_eq!(&color[0..2], &[0, 1]);
    assert_eq!(&color[6..8], &[0, 4]);
    assert_eq!(&color[8..16], &[0, b'0', 0, b'0', 0, b'1', 0, 0]);
}

#[test]
fn group_end_block_bytes() {
    let mut buf = Vec::new();
    write_group_end(&mut buf);
    assert_eq!(buf, vec![0xC0, 0x02, 0, 0, 0, 0]);
}

#[test]
fn roundtrip_keeps_every_channel_bit_pattern() {
    let raw = vec![[0u32, 1, 0xFFFF_FFFF], [0x3F80_0000, 0x7FC0_0000, 42]];
    let pal = import(&export("Bits", &raw)).unwrap();
    assert_eq!(pal.group_name.as_deref(), Some("Bits"));
    let got: Vec<AseColor> = pal.colors;
    assert_eq!(
        got,
        vec![
            AseColor::Rgb { r: 0, g: 1, b: 0xFFFF_FFFF },
            AseColor::Rgb { r: 0x3F80_0000, g: 0x7FC0_0000, b: 42 },
        ]
    );
}

#[test]
fn group_name_with_lone_surrogate_reads_as_replacement() {
    let mut buf: Vec<u8> = Vec::new();
    buf.extend_from_slice(b"ASEF");
    buf.extend_from_slice(&1u16.to_be_bytes());
    buf.extend_from_slice(&0u16.to_be_bytes());
    buf.extend_from_slice(&1u32.to_be_bytes());
    // Name field: count of units including the terminator, then the units.
    let units: [u16; 5] = [0xD800, 0x0041, 0xD83D, 0xDE00, 0];
    let mut p: Vec<u8> = Vec::new();
    p.extend_from_slice(&(units.len() as u16).to_be_bytes());
    for u in units {
        p.extend_from_slice(&u.to_be_bytes());
    }
    buf.extend_from_slice(&0xC001u16.to_be_bytes());
    buf.extend_from_slice(&(p.len() as u32).to_be_bytes());
    buf.extend_from_slice(&p);
    let pal = import(&buf).ok().expect("import");
    assert_eq!(pal.group_name.as_deref(), Some("\u{FFFD}A\u{1F600}"));
}

#[test]
fn roundtrip_keeps_a_name_outside_the_basic_plane() {
    let bytes = export("caf\u{e9} \u{1F3A8}", &[bits([1, 2, 3, 255])]);
    let pal = import(&bytes).ok().expect("import");
    assert_eq!(pal.group_name.as_deref(), Some("caf\u{e9} \u{1F3A8}"));
}
