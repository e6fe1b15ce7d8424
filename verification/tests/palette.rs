use roxel::palette::{load, save, Palette, StoredPalette};

fn pal(name: &str, colors: Vec<[u8; 4]>, builtin: bool) -> Palette {
    Palette {
        name: name.into(),
        colors,
        builtin,
    }
}

#[test]
fn roundtrip_user_palettes() {
    let input = vec![
        pal("My Reds", vec![[255, 0, 0, 255], [200, 50, 50, 255]], false),
        pal("Greens", vec![[0, 255, 0, 255]], false),
    ];
    let loaded = load(Some(save(&input)));
    assert_eq!(loaded.len(), 2);
    assert_eq!(loaded[0].name, "My Reds");
    assert_eq!(loaded[0].colors, vec![[255, 0, 0, 255], [200, 50, 50, 255]]);
    assert!(!loaded[0].builtin);
    assert_eq!(loaded[1].name, "Greens");
}

#[test]
fn builtins_are_not_persisted() {
    let mixed = vec![
        pal("Built", vec![[0, 0, 0, 255]], true),
        pal("User", vec![[1, 2, 3, 255]], false),
    ];
    let stored = save(&mixed);
    assert_eq!(stored.len(), 1);
    assert_eq!(stored[0].name, "User");
    let loaded = load(Some(stored));
    assert_eq!(loaded.len(), 1);
    assert_eq!(loaded[0].name, "User");
}

#[test]
fn missing_file_yields_empty() {
    assert!(load(None).is_empty());
}

#[test]
fn stored_palettes_load_as_user_palettes() {
    let stored = vec![StoredPalette {
        name: "Imported".into(),
        colors: vec![[7, 7, 7, 255]],
    }];
    let loaded = load(Some(stored));
    assert_eq!(loaded.len(), 1);
    assert!(!loaded[0].builtin);
    assert_eq!(loaded[0].colors, vec![[7, 7, 7, 255]]);
}
