use rust_website_gen::{has_extension, is_absolute_path, join_path, to_final_path, trim_separators};

#[test]
fn absolute_paths() {
    assert!(is_absolute_path("/x"));
    assert!(is_absolute_path("/"));
    assert!(!is_absolute_path("x/y"));
    assert!(!is_absolute_path(""));
}

#[test]
fn joining_inserts_one_separator() {
    assert_eq!(join_path("out", "a/b"), "out/a/b");
    assert_eq!(join_path("out", ""), "out/");
    assert_eq!(join_path("out/", "a"), "out/a");
    assert_eq!(join_path("", "x"), "x");
    assert_eq!(join_path("", ""), "");
}

#[test]
fn trimming_removes_every_leading_separator() {
    assert_eq!(trim_separators("///a/b"), "a/b");
    assert_eq!(trim_separators("a//"), "a//");
    assert_eq!(trim_separators("//"), "");
}

#[test]
fn extensions() {
    assert!(has_extension("feed.xml"));
    assert!(has_extension("a/b/archive.tar.gz"));
    assert!(has_extension("a/name."));
    assert!(!has_extension("about"));
    assert!(!has_extension("dir.d/file"));
    assert!(!has_extension("a/.hidden"));
    assert!(!has_extension("a/.."));
    assert!(has_extension("feed.xml/"));
    assert!(has_extension("out/feed.xml//"));
    assert!(has_extension("out/feed.xml/."));
    assert!(!has_extension("a/."));
    assert!(!has_extension("."));
    assert!(!has_extension("/"));
    assert!(!has_extension(""));
}

#[test]
fn final_paths() {
    assert_eq!(to_final_path("out/about"), "out/about/index.html");
    assert_eq!(to_final_path("out/feed.xml"), "out/feed.xml");
    assert_eq!(to_final_path("out/.well"), "out/.well/index.html");
    assert_eq!(to_final_path("out/feed.xml/"), "out/feed.xml/");
    assert_eq!(to_final_path("out/about/"), "out/about/index.html");
    assert_eq!(to_final_path(""), "index.html");
    assert_eq!(to_final_path("feed.xml"), "feed.xml");
}
