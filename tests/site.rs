use rust_website_gen::{is_absolute_path, App, BuildError, Op, RouteError, ServeDir};

fn write(path: &str, text: &str) -> Op {
    Op::Write { path: path.to_string(), text: text.to_string() }
}

fn make_dir(dir: &str) -> Op {
    Op::MakeDir { dir: dir.to_string() }
}

fn clear(dir: &str) -> Op {
    Op::Clear { dir: dir.to_string() }
}

#[test]
fn extensionless_route_becomes_index_file() {
    let mut app = App::new();
    app.route("/about", "hi");
    let ops = app.build("out").unwrap();
    assert_eq!(ops, vec![clear("out"), make_dir("out"), write("out/about/index.html", "hi")]);
}

#[test]
fn route_with_extension_is_written_verbatim() {
    let mut app = App::new();
    app.route("/feed.xml", "<rss/>");
    let ops = app.build("out").unwrap();
    assert_eq!(ops, vec![clear("out"), make_dir("out"), write("out/feed.xml", "<rss/>")]);
}

#[test]
fn nested_table_builds_beneath_its_route() {
    let mut blog = App::new();
    blog.route("/post1", String::from("first post"));
    let mut app = App::new();
    app.route("/blog", blog);
    let ops = app.build("out").unwrap();
    assert_eq!(
        ops,
        vec![
            clear("out"),
            make_dir("out"),
            make_dir("out/blog"),
            write("out/blog/post1/index.html", "first post"),
        ]
    );
}

#[test]
fn mirrored_directory_is_copied_beneath_its_route() {
    let mut app = App::new();
    app.route("/assets", ServeDir("static".to_string()));
    let ops = app.build("out").unwrap();
    assert_eq!(
        ops,
        vec![
            clear("out"),
            make_dir("out"),
            Op::Mirror { from: "static".to_string(), to: "out/assets".to_string() },
        ]
    );
    let files = vec!["a/b.txt".to_string(), "c.txt".to_string()];
    let copies = ServeDir("static".to_string()).copies("out/assets", &files);
    assert_eq!(
        copies,
        vec![
            ("static/a/b.txt".to_string(), "out/assets/a/b.txt".to_string()),
            ("static/c.txt".to_string(), "out/assets/c.txt".to_string()),
        ]
    );
}

#[test]
fn mirror_of_empty_directory_copies_nothing() {
    let copies = ServeDir("static".to_string()).copies("out/assets", &Vec::new());
    assert!(copies.is_empty());
}

#[test]
fn absolute_output_is_recognised() {
    assert!(is_absolute_path("/tmp/out"));
    assert!(!is_absolute_path("tmp/out"));
}

#[test]
fn empty_output_is_refused() {
    let mut app = App::new();
    app.route("/about", "hi");
    assert_eq!(app.build("").unwrap_err(), BuildError::EmptyOutput);
}

#[test]
fn relative_output_is_accepted() {
    let app = App::new();
    assert_eq!(app.build("site/out").unwrap(), vec![clear("site/out"), make_dir("site/out")]);
}

#[test]
fn path_without_separator_is_refused() {
    let mut app = App::new();
    assert_eq!(app.try_route("about", "hi"), Err(RouteError::MissingSeparator));
    assert_eq!(app.try_route("", "hi"), Err(RouteError::MissingSeparator));
    assert_eq!(app.build("out").unwrap(), vec![clear("out"), make_dir("out")]);
}

#[test]
fn duplicate_key_is_refused() {
    let mut app = App::new();
    assert_eq!(app.try_route("/about", "hi"), Ok(()));
    assert_eq!(app.try_route("/about", "again"), Err(RouteError::Duplicate));
    let ops = app.build("out").unwrap();
    assert_eq!(ops, vec![clear("out"), make_dir("out"), write("out/about/index.html", "hi")]);
}

#[test]
fn keys_differing_in_separators_are_distinct() {
    let mut app = App::new();
    assert_eq!(app.try_route("/about", "a"), Ok(()));
    assert_eq!(app.try_route("//about", "b"), Ok(()));
    assert_eq!(app.try_route("/about/", "c"), Ok(()));
}

#[test]
fn to_final_route_strips_one_separator() {
    let mut app = App::new();
    assert_eq!(app.to_final_route("/a/b"), Some("a/b".to_string()));
    assert_eq!(app.to_final_route("//a"), Some("/a".to_string()));
    assert_eq!(app.to_final_route("a"), None);
    app.route("/a/b", "x");
    assert_eq!(app.to_final_route("/a/b"), None);
}

#[test]
fn extra_leading_separators_are_trimmed_when_building() {
    let mut app = App::new();
    app.route("//x", "t");
    let ops = app.build("out").unwrap();
    assert_eq!(ops, vec![clear("out"), make_dir("out"), write("out/x/index.html", "t")]);
}

#[test]
fn root_route_writes_index_of_output() {
    let mut app = App::new();
    app.route("/", "hello world");
    let ops = app.build("output").unwrap();
    assert_eq!(ops, vec![clear("output"), make_dir("output"), write("output/index.html", "hello world")]);
}

#[test]
fn routes_chain() {
    let mut app = App::new();
    app.route("/a", "x").route("/b.txt", "y");
    let ops = app.build("o").unwrap();
    assert_eq!(ops, vec![clear("o"), make_dir("o"), write("o/a/index.html", "x"), write("o/b.txt", "y")]);
}

#[test]
fn building_twice_gives_the_same_plan() {
    let mut blog = App::new();
    blog.route("/post1", "p");
    let mut app = App::new();
    app.route("/blog", blog);
    app.route("/feed.xml", "<rss/>");
    let first = app.build("out").unwrap();
    let second = app.build("out").unwrap();
    assert_eq!(first, second);
    assert_eq!(first[0], clear("out"));
}

#[test]
fn default_app_is_empty() {
    let app = App::default();
    assert_eq!(app.build("d").unwrap(), vec![clear("d"), make_dir("d")]);
}

#[test]
fn trailing_separator_keeps_extension() {
    let mut app = App::new();
    app.route("/feed.xml/", "<rss/>");
    app.route("/docs/", "d");
    let ops = app.build("out/").unwrap();
    assert_eq!(
        ops,
        vec![clear("out/"), make_dir("out/"), write("out/feed.xml/", "<rss/>"), write("out/docs/index.html", "d")]
    );
}

#[test]
fn empty_text_is_written() {
    let mut app = App::new();
    app.route("/empty.txt", "");
    let ops = app.build("out").unwrap();
    assert_eq!(ops, vec![clear("out"), make_dir("out"), write("out/empty.txt", "")]);
}

#[test]
fn mirror_at_root_route_targets_output() {
    let mut app = App::new();
    app.route("/", ServeDir("static".to_string()));
    let ops = app.build("out").unwrap();
    assert_eq!(
        ops,
        vec![clear("out"), make_dir("out"), Op::Mirror { from: "static".to_string(), to: "out".to_string() }]
    );
}

#[test]
fn cloned_table_is_reused_under_two_routes() {
    let mut shared = App::new();
    shared.route("/page", "p");
    let mut app = App::new();
    app.route("/one", shared.clone());
    app.route("/two", shared);
    let ops = app.build("out").unwrap();
    assert_eq!(
        ops,
        vec![
            clear("out"),
            make_dir("out"),
            make_dir("out/one"),
            write("out/one/page/index.html", "p"),
            make_dir("out/two"),
            write("out/two/page/index.html", "p"),
        ]
    );
}

#[test]
fn mirror_copies_from_relative_source_and_into_trailing_separator() {
    let files = vec!["a".to_string(), "d/e.txt".to_string()];
    let copies = ServeDir(String::new()).copies("o/", &files);
    assert_eq!(
        copies,
        vec![("a".to_string(), "o/a".to_string()), ("d/e.txt".to_string(), "o/d/e.txt".to_string())]
    );
}
