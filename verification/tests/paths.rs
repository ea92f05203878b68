use backend::paths::{
    components, extension, file_name, join, normalize_path_key, parent, starts_with_path,
    with_extension,
};

#[test]
fn file_name_of_paths() {
    assert_eq!(file_name("/usr/bin/"), Some("bin"));
    assert_eq!(file_name("tmp/foo.txt"), Some("foo.txt"));
    assert_eq!(file_name("foo.txt/."), Some("foo.txt"));
    assert_eq!(file_name("foo.txt/.//"), Some("foo.txt"));
    assert_eq!(file_name("foo.txt/.."), None);
    assert_eq!(file_name("/"), None);
    assert_eq!(file_name(""), None);
    assert_eq!(file_name("."), None);
}

#[test]
fn extension_of_paths() {
    assert_eq!(extension("foo.rs"), Some("rs"));
    assert_eq!(extension("foo.tar.gz"), Some("gz"));
    assert_eq!(extension("/src/app.component.ts"), Some("ts"));
    assert_eq!(extension(".hidden"), None);
    assert_eq!(extension("foo"), None);
    assert_eq!(extension("foo."), Some(""));
    assert_eq!(extension("dir.d/"), Some("d"));
}

#[test]
fn parent_of_paths() {
    assert_eq!(parent("/foo/bar"), Some("/foo"));
    assert_eq!(parent("/foo"), Some("/"));
    assert_eq!(parent("/"), None);
    assert_eq!(parent("foo/bar"), Some("foo"));
    assert_eq!(parent("foo"), Some(""));
    assert_eq!(parent(""), None);
    assert_eq!(parent("./foo"), Some("."));
    assert_eq!(parent("/a/b/./"), Some("/a"));
}

#[test]
fn join_paths() {
    assert_eq!(join("/etc", "passwd"), "/etc/passwd");
    assert_eq!(join("/etc/", "passwd"), "/etc/passwd");
    assert_eq!(join("/etc", "/bin/sh"), "/bin/sh");
    assert_eq!(join("", "b"), "b");
    assert_eq!(join("/src/app", "./util"), "/src/app/./util");
}

#[test]
fn with_extension_of_paths() {
    assert_eq!(with_extension("foo.rs", "txt"), "foo.txt");
    assert_eq!(with_extension("foo.tar.gz", ""), "foo.tar");
    assert_eq!(with_extension("foo.tar.gz", "xz"), "foo.tar.xz");
    assert_eq!(with_extension("/src/util", "ts"), "/src/util.ts");
    assert_eq!(with_extension("/src/lib/", "ts"), "/src/lib.ts");
    assert_eq!(with_extension("/", "ts"), "/");
    assert_eq!(with_extension(".env", "ts"), ".env.ts");
}

#[test]
fn normalize_path_key_replaces_backslashes() {
    assert_eq!(normalize_path_key("C:\\src\\app.ts"), "C:/src/app.ts");
    assert_eq!(normalize_path_key("/already/fine"), "/already/fine");
    assert_eq!(normalize_path_key(""), "");
}

#[test]
fn components_of_paths() {
    assert_eq!(components("/tmp/foo.txt"), vec!["/", "tmp", "foo.txt"]);
    assert_eq!(components("./a/./b//c/"), vec![".", "a", "b", "c"]);
    assert_eq!(components("a/../b"), vec!["a", "..", "b"]);
    assert_eq!(components(""), Vec::<String>::new());
}

#[test]
fn starts_with_path_by_components() {
    assert!(starts_with_path("/etc/passwd", "/etc"));
    assert!(starts_with_path("/etc/passwd", "/etc/"));
    assert!(starts_with_path("/etc/passwd", "/etc/passwd"));
    assert!(starts_with_path("/etc/passwd", "/etc/passwd/"));
    assert!(starts_with_path("/etc/passwd", "/etc/passwd///"));
    assert!(!starts_with_path("/etc/passwd", "/e"));
    assert!(!starts_with_path("/etc/passwd", "/etc/passwd.txt"));
    assert!(!starts_with_path("/etc/foo.rs", "/etc/foo"));
}
