use roxel::recent::{push, MAX_RECENT};

#[test]
fn push_moves_existing_to_front() {
    let mut list: Vec<String> = vec!["/a".into(), "/b".into(), "/c".into()];
    push(&mut list, "/b".into());
    assert_eq!(
        list,
        vec![String::from("/b"), String::from("/a"), String::from("/c")]
    );
}

#[test]
fn push_caps_at_max() {
    let mut list: Vec<String> = (0..MAX_RECENT).map(|i| format!("/p{i}")).collect();
    push(&mut list, "/new".into());
    assert_eq!(list.len(), MAX_RECENT);
    assert_eq!(list[0], String::from("/new"));
    assert_eq!(list.last(), Some(&format!("/p{}", MAX_RECENT - 2)));
}

#[test]
fn push_treats_equivalent_paths_as_one() {
    let mut list: Vec<String> = vec!["/a/".into(), "/b".into()];
    push(&mut list, "/a".into());
    assert_eq!(list, vec![String::from("/a"), String::from("/b")]);
}

#[test]
fn push_into_empty_list() {
    let mut list: Vec<String> = Vec::new();
    push(&mut list, "/x".into());
    assert_eq!(list, vec![String::from("/x")]);
}

#[test]
fn load_caps_at_max() {
    let stored: Vec<String> = (0..MAX_RECENT + 3).map(|i| format!("/p{i}")).collect();
    let list = roxel::recent::load(Some(stored));
    assert_eq!(list.len(), MAX_RECENT);
    assert_eq!(list[0], String::from("/p0"));
}

#[test]
fn load_missing_is_empty() {
    assert!(roxel::recent::load(None).is_empty());
}

#[test]
fn save_keeps_every_path_in_order() {
    let paths = vec![String::from("/a"), String::from("/b")];
    assert_eq!(roxel::recent::save(&paths), paths);
}

#[test]
fn pushing_the_same_path_twice_is_one_push() {
    let mut list: Vec<String> = vec!["/a".to_string(), "/b/".to_string(), "/c".to_string()];
    push(&mut list, "/b".to_string());
    let once = list.clone();
    assert_eq!(once, vec!["/b".to_string(), "/a".to_string(), "/c".to_string()]);
    push(&mut list, "/b".to_string());
    assert_eq!(list, once);
}
