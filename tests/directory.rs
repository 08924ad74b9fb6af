use extree::{Directory, FileEntry, Listing};

const TESTS_DIR: &str = "/work/extree";

fn file(name: &str, size: u64) -> FileEntry {
    FileEntry { name: name.to_string(), size }
}

fn dir(path: String, files: Vec<FileEntry>, dirs: Vec<Listing>) -> Listing {
    Listing { path, files, dirs }
}

/// The sample tree: two `foo` files, one file without extension and one
/// `md` file at the top, and a `bar` file in `dirA`.
fn tests_listing() -> Listing {
    let root = format!("{}/tests", TESTS_DIR);
    let dir_a = dir(format!("{}/dirA", root), vec![file("one.bar", 5)], vec![]);
    dir(
        root,
        vec![file("a.foo", 12), file("b.foo", 8), file("Makefile", 20), file("notes.md", 3)],
        vec![dir_a],
    )
}

fn tests_dir(max_depth: usize) -> Directory {
    Directory::new(&tests_listing(), 0, max_depth).expect("could not create directory")
}

#[test]
fn test_new() {
    let root = format!("{}/tests", TESTS_DIR);
    let directory = tests_dir(0);
    assert_eq!(directory.depth(), 0);
    assert_eq!(directory.root(), root);
    assert_eq!(directory.extensions().len(), 4);
    assert_eq!(directory.subdirectories().len(), 0);
    assert_eq!(directory.name().expect("could not read directory name"), "tests");
}

#[test]
fn test_count() {
    let directory = tests_dir(0);
    assert_eq!(directory.count(Some("foo")), 2);
    assert_eq!(directory.count(Some("bar")), 1);
    assert_eq!(directory.count(Some("non-existent")), 0);
    assert_eq!(directory.count(None), 1);
}

#[test]
fn test_size() {
    let directory = tests_dir(0);
    assert_eq!(directory.size(Some("foo")), Some(20));
    assert_eq!(directory.size(Some("bar")), Some(5));
    assert_eq!(directory.size(Some("non-existent")), None);
    assert_eq!(directory.size(None), Some(20));
}

#[test]
fn test_recursion() {
    let directory = tests_dir(1);
    let subdirectory = directory.subdirectories().first().expect("no subdirectories found");

    assert_eq!(subdirectory.name().expect("could not read directory name"), "dirA");
    assert_eq!(subdirectory.count(Some("bar")), 1);
    assert_eq!(subdirectory.size(Some("bar")), Some(5));
}

#[test]
fn test_draw() {
    let directory = tests_dir(1);
    let lines = directory.draw(true).expect("could not draw directory");
    assert_eq!(lines.len(), 6);
    assert_eq!(lines[0], "tests");
    assert_eq!(lines[4], "└── dirA");
    assert_eq!(lines[5], format!("    └── bar ── 1 ── {:>10}", "5 B"));
}
