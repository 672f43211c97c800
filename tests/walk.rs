use rust_website_gen::Walk;

#[test]
fn walk_collects_files_beneath_subdirectories() {
    let mut walk = Walk::new();
    let root = walk.next_dir().unwrap();
    assert_eq!(root, "");
    walk.visit(&root, vec![("a".to_string(), true), ("c.txt".to_string(), false)]);
    let a = walk.next_dir().unwrap();
    assert_eq!(a, "a");
    walk.visit(&a, vec![("b.txt".to_string(), false)]);
    assert_eq!(walk.next_dir(), None);
    assert_eq!(walk.into_found(), vec!["c.txt".to_string(), "a/b.txt".to_string()]);
}

#[test]
fn walk_of_empty_directory_finds_nothing() {
    let mut walk = Walk::new();
    let root = walk.next_dir().unwrap();
    walk.visit(&root, Vec::new());
    assert_eq!(walk.next_dir(), None);
    assert!(walk.into_found().is_empty());
}

#[test]
fn walk_reads_nested_directories_last_first() {
    let mut walk = Walk::new();
    let root = walk.next_dir().unwrap();
    walk.visit(&root, vec![("x".to_string(), true), ("y".to_string(), true)]);
    assert_eq!(walk.next_dir(), Some("y".to_string()));
    walk.visit("y", vec![("z".to_string(), true)]);
    assert_eq!(walk.next_dir(), Some("y/z".to_string()));
    assert_eq!(walk.next_dir(), Some("x".to_string()));
    assert_eq!(walk.next_dir(), None);
}
