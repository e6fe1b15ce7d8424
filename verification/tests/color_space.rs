use roxel::color::{parse_hex, ColorEditBuffer, ColorSpace};

#[test]
fn format_per_space() {
    assert_eq!(ColorSpace::Hex.format([0xFF, 0x88, 0x00], [0, 0, 0]), "#FF8800");
    assert_eq!(ColorSpace::Rgb.format([255, 136, 0], [0, 0, 0]), "255 136 0");
    // Pure red: HSL/HSB hue 0, full sat. Lightness 50 / brightness 100.
    assert_eq!(ColorSpace::Hsl.format([255, 0, 0], [0, 100, 50]), "0° 100% 50%");
    assert_eq!(ColorSpace::Hsb.format([255, 0, 0], [0, 100, 100]), "0° 100% 100%");
    // OKLCH: white has L = 100 and zero chroma.
    assert!(ColorSpace::Oklch
        .format([255, 255, 255], [100, 0, 0])
        .starts_with("100%"));
}

#[test]
fn hex_parse_round_trip() {
    assert_eq!(parse_hex("#FF8800"), Some([0xFF, 0x88, 0x00]));
    assert_eq!(parse_hex("#ff8800"), Some([0xFF, 0x88, 0x00]));
    assert_eq!(parse_hex("FF8800"), Some([0xFF, 0x88, 0x00]));
    assert_eq!(parse_hex("  #FF8800  "), Some([0xFF, 0x88, 0x00]));
}

#[test]
fn hex_parse_rejects_malformed() {
    assert_eq!(parse_hex(""), None);
    assert_eq!(parse_hex("#FFF"), None);
    assert_eq!(parse_hex("#FFFFFFF"), None);
    assert_eq!(parse_hex("#GGGGGG"), None);
    assert_eq!(parse_hex("not hex"), None);
}

#[test]
fn edit_buffer_commit_rejects_garbage() {
    let mut buf = ColorEditBuffer::default();
    buf.populate([10, 20, 30, 255], ColorSpace::Rgb, [0, 0, 0]);
    buf.fields[0] = "not a number".to_string();
    assert!(buf.commit().is_none());
}

#[test]
fn edit_buffer_rgb_accepts_in_range_values() {
    let mut buf = ColorEditBuffer {
        space: ColorSpace::Rgb,
        ..Default::default()
    };
    buf.fields[0] = "255".into();
    buf.fields[1] = "0".into();
    buf.fields[2] = "127".into();
    assert_eq!(buf.commit(), Some([255, 0, 127]));
}

#[test]
fn edit_buffer_rgb_rejects_out_of_range() {
    let mut buf = ColorEditBuffer {
        space: ColorSpace::Rgb,
        ..Default::default()
    };
    buf.fields[0] = "999".into();
    buf.fields[1] = "0".into();
    buf.fields[2] = "0".into();
    assert!(buf.commit().is_none());
}

#[test]
fn labels_name_each_space() {
    assert_eq!(ColorSpace::Hex.label(), "Hex");
    assert_eq!(ColorSpace::Rgb.label(), "RGB");
    assert_eq!(ColorSpace::Hsl.label(), "HSL");
    assert_eq!(ColorSpace::Hsb.label(), "HSB");
    assert_eq!(ColorSpace::Oklch.label(), "OKLCH");
}

#[test]
fn oklch_readout_formats_chroma_to_three_places() {
    assert_eq!(ColorSpace::Oklch.format([0, 0, 0], [63, 258, 29]), "63% 0.258 29°");
    assert_eq!(ColorSpace::Hsl.format([0, 0, 0], [-5, 7, 0]), "-5° 7% 0%");
}

#[test]
fn hex_populate_then_commit_round_trips() {
    let mut buf = ColorEditBuffer::default();
    buf.populate([200, 50, 130, 255], ColorSpace::Hex, [0, 0, 0]);
    assert_eq!(buf.fields[0], "#C83282");
    assert_eq!(buf.fields[1], "");
    assert_eq!(buf.source, [200, 50, 130, 255]);
    assert_eq!(buf.commit(), Some([200, 50, 130]));
}

#[test]
fn rgb_populate_then_commit_round_trips() {
    let mut buf = ColorEditBuffer::default();
    buf.populate([200, 50, 130, 255], ColorSpace::Rgb, [0, 0, 0]);
    assert_eq!(buf.fields[0], "200");
    assert_eq!(buf.fields[1], "50");
    assert_eq!(buf.fields[2], "130");
    assert_eq!(buf.commit(), Some([200, 50, 130]));
}

#[test]
fn polar_populate_uses_field_precision() {
    let mut buf = ColorEditBuffer::default();
    buf.populate([255, 0, 0, 255], ColorSpace::Hsl, [0, 1000, 500]);
    assert_eq!(buf.fields[0], "0");
    assert_eq!(buf.fields[1], "100.0");
    assert_eq!(buf.fields[2], "50.0");
    buf.populate([255, 255, 255, 255], ColorSpace::Oklch, [1000, 5, 90]);
    assert_eq!(buf.fields[0], "100.0");
    assert_eq!(buf.fields[1], "0.005");
    assert_eq!(buf.fields[2], "90");
}

#[test]
fn rgb_commit_accepts_plus_sign_and_padding() {
    let mut buf = ColorEditBuffer {
        space: ColorSpace::Rgb,
        ..Default::default()
    };
    buf.fields[0] = " +7 ".into();
    buf.fields[1] = "007".into();
    buf.fields[2] = "255".into();
    assert_eq!(buf.commit(), Some([7, 7, 255]));
    buf.fields[2] = "-1".into();
    assert!(buf.commit().is_none());
    buf.fields[2] = "256".into();
    assert!(buf.commit().is_none());
    buf.fields[2] = "+".into();
    assert!(buf.commit().is_none());
}

#[test]
fn hex_parse_accepts_mixed_case_and_tabs() {
    assert_eq!(parse_hex("\t#aBcDeF\n"), Some([0xAB, 0xCD, 0xEF]));
    assert_eq!(parse_hex("##ABCDEF"), None);
    assert_eq!(parse_hex("#ÿÿÿ"), None);
}

#[test]
fn trim_str_matches_std_trim() {
    for s in ["", "   ", " a b ", "\t12\n", "\u{3000}x\u{a0}", "x", "\u{85}y\u{2029}"] {
        assert_eq!(roxel::color::trim_str(s), s.trim());
    }
}
