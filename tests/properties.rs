use extree::render::{item_line_text, vertical_bars};
use extree::{
    base_name_of, extension_of, format_size, Directory, DrawError, ExtensionSortingMethod, FileEntry,
    Listing, ScanError,
};

fn file(name: &str, size: u64) -> FileEntry {
    FileEntry { name: name.to_string(), size }
}

fn dir(path: &str, files: Vec<FileEntry>, dirs: Vec<Listing>) -> Listing {
    Listing { path: path.to_string(), files, dirs }
}

fn names(d: &Directory) -> Vec<Option<String>> {
    d.extensions().iter().map(|e| e.name().clone()).collect()
}

fn nested() -> Listing {
    let s3 = dir("/r/top/s1/s2/s3", vec![file("d.txt", 8)], vec![]);
    let s2 = dir("/r/top/s1/s2", vec![file("c.md", 4)], vec![s3]);
    let s1 = dir("/r/top/s1", vec![file("b.txt", 2)], vec![s2]);
    dir("/r/top", vec![file("a.txt", 1)], vec![s1])
}

#[test]
fn size_boundaries() {
    assert_eq!(format_size(1023, 2), "1023 B");
    assert_eq!(format_size(1024, 2), "1.00 kiB");
    assert_eq!(format_size(1048576, 2), "1.00 MiB");
    assert_eq!(format_size(1073741824, 2), "1.00 GiB");
    assert_eq!(format_size(1099511627776, 2), "1.00 TiB");
}

#[test]
fn size_rounding() {
    assert_eq!(format_size(0, 2), "0 B");
    assert_eq!(format_size(1536, 2), "1.50 kiB");
    assert_eq!(format_size(1152, 2), "1.12 kiB");
    assert_eq!(format_size(1176, 2), "1.15 kiB");
    assert_eq!(format_size(1048575, 2), "1024.00 kiB");
    assert_eq!(format_size(1536, 0), "2 kiB");
    assert_eq!(format_size(2560, 0), "2 kiB");
    assert_eq!(format_size(1025, 3), "1.001 kiB");
    assert_eq!(format_size(u64::MAX, 2), "16777216.00 TiB");
}

#[test]
fn size_matches_float_formatting() {
    for bytes in [1024u64, 1500, 2047, 5000, 123456, 999999, 1048577, 5_000_000_000, 3_000_000_000_000] {
        let scale = if bytes < 1048576 {
            1024.0
        } else if bytes < 1073741824 {
            1048576.0
        } else if bytes < 1099511627776 {
            1073741824.0
        } else {
            1099511627776.0
        };
        let text = format_size(bytes, 2);
        let number: String = text.split(' ').next().unwrap().to_string();
        assert_eq!(number, format!("{:.2}", bytes as f64 / scale));
    }
}

#[test]
fn extension_classification() {
    assert_eq!(extension_of("a.tar.gz"), Some("tar.gz".to_string()));
    assert_eq!(extension_of("notes.txt"), Some("txt".to_string()));
    assert_eq!(extension_of(".profile"), None);
    assert_eq!(extension_of("README"), None);
    assert_eq!(extension_of("x."), Some(String::new()));
    assert_eq!(extension_of(""), None);
}

#[test]
fn base_names() {
    assert_eq!(base_name_of("/a/b"), "b");
    assert_eq!(base_name_of("plain"), "plain");
    assert_eq!(base_name_of("/"), "");
}

#[test]
fn counts_add_up() {
    let l = dir(
        "/d/x",
        vec![file("a.txt", 10), file("b.txt", 20), file("c.log", 5), file("d", 7), file("e.log", 1)],
        vec![],
    );
    let d = Directory::new(&l, 0, 1).unwrap();
    assert_eq!(d.extensions().len(), 3);
    let total: usize = d.extensions().iter().map(|e| e.count()).sum();
    let bytes: u64 = d.extensions().iter().map(|e| e.total_size_bytes()).sum();
    assert_eq!(total, 5);
    assert_eq!(bytes, 43);
}

#[test]
fn three_files_two_extensions() {
    let l = dir("/data/p6", vec![file("a.txt", 10), file("b.txt", 20), file("c.log", 5)], vec![]);
    let mut d = Directory::new(&l, 0, 1).unwrap();
    assert_eq!(d.count(Some("txt")), 2);
    assert_eq!(d.size(Some("txt")), Some(30));
    assert_eq!(d.count(Some("log")), 1);
    assert_eq!(d.size(Some("log")), Some(5));
    d.sort_by(ExtensionSortingMethod::Alphabetically);
    assert_eq!(names(&d), vec![Some("log".to_string()), Some("txt".to_string())]);
    let lines = d.draw(true).unwrap();
    assert_eq!(
        lines,
        vec![
            "p6".to_string(),
            format!("├── log ── 1 ── {:>10}", "5 B"),
            format!("└── txt ── 2 ── {:>10}", "30 B"),
        ]
    );
}

#[test]
fn empty_directory_hidden() {
    let l = dir(
        "/r/root",
        vec![],
        vec![dir("/r/root/full", vec![file("x.txt", 3)], vec![]), dir("/r/root/empty", vec![], vec![])],
    );
    let d = Directory::new(&l, 0, 5).unwrap();
    let hidden = d.draw(false).unwrap();
    assert_eq!(
        hidden,
        vec!["root".to_string(), "└── full".to_string(), format!("    └── txt ── 1 ── {:>10}", "3 B")]
    );
    let shown = d.draw(true).unwrap();
    assert_eq!(
        shown,
        vec![
            "root".to_string(),
            "├── empty".to_string(),
            "└── full".to_string(),
            format!("    └── txt ── 1 ── {:>10}", "3 B"),
        ]
    );
}

#[test]
fn pipes_continue_below_non_last_siblings() {
    let l = dir(
        "/r/root",
        vec![file("top.rs", 2048)],
        vec![
            dir("/r/root/a", vec![], vec![dir("/r/root/a/deep", vec![file("z.c", 1)], vec![])]),
            dir("/r/root/b", vec![file("y.h", 2)], vec![]),
        ],
    );
    let d = Directory::new(&l, 0, 9).unwrap();
    let lines = d.draw(true).unwrap();
    assert_eq!(
        lines,
        vec![
            "root".to_string(),
            format!("├── rs ── 1 ── {:>10}", "2.00 kiB"),
            "├── a".to_string(),
            "│   └── deep".to_string(),
            format!("│       └── c ── 1 ── {:>10}", "1 B"),
            "└── b".to_string(),
            format!("    └── h ── 1 ── {:>10}", "2 B"),
        ]
    );
}

#[test]
fn columns_align_per_directory() {
    let mut files = vec![file("n", 1)];
    for i in 0..12 {
        files.push(file(&format!("f{}.longext", i), 1));
    }
    let l = dir("/r/cols", files, vec![]);
    let d = Directory::new(&l, 0, 1).unwrap();
    let lines = d.draw(true).unwrap();
    assert_eq!(lines[1], format!("├── N/A     ──  1 ── {:>10}", "1 B"));
    assert_eq!(lines[2], format!("└── longext ── 12 ── {:>10}", "12 B"));
}

#[test]
fn ceiling_zero_flattens_everything() {
    let d = Directory::new(&nested(), 0, 0).unwrap();
    assert_eq!(d.subdirectories().len(), 0);
    assert_eq!(d.count(Some("txt")), 3);
    assert_eq!(d.size(Some("txt")), Some(11));
    assert_eq!(d.count(Some("md")), 1);
    assert_eq!(d.size(Some("md")), Some(4));
}

#[test]
fn children_sorted_by_name() {
    let l = dir(
        "/r/s",
        vec![],
        vec![dir("/r/s/beta", vec![], vec![]), dir("/r/s/Zed", vec![], vec![]), dir("/r/s/alpha", vec![], vec![])],
    );
    let d = Directory::new(&l, 0, 3).unwrap();
    let found: Vec<String> = d.subdirectories().iter().map(|c| c.name().unwrap()).collect();
    assert_eq!(found, vec!["Zed", "alpha", "beta"]);
    assert_eq!(d.subdirectories()[0].depth(), 1);
}

#[test]
fn sorting_is_stable() {
    let l = dir(
        "/r/sort",
        vec![
            file("1.a", 5),
            file("1.b", 3),
            file("2.b", 3),
            file("1.c", 1),
            file("2.c", 1),
            file("1.d", 6),
        ],
        vec![],
    );
    let mut d = Directory::new(&l, 0, 1).unwrap();
    let s = |x: &str| Some(x.to_string());
    d.sort_by(ExtensionSortingMethod::FileCount);
    assert_eq!(names(&d), vec![s("b"), s("c"), s("a"), s("d")]);
    let mut d = Directory::new(&l, 0, 1).unwrap();
    d.sort_by(ExtensionSortingMethod::FileSize);
    assert_eq!(names(&d), vec![s("b"), s("d"), s("a"), s("c")]);
}

#[test]
fn alphabetical_is_case_sensitive() {
    let l = dir("/r/case", vec![file("x.a", 1), file("x.C", 1), file("plain", 1), file("x.B", 1)], vec![]);
    let mut d = Directory::new(&l, 0, 1).unwrap();
    d.sort_by(ExtensionSortingMethod::Alphabetically);
    assert_eq!(names(&d), vec![None, Some("B".to_string()), Some("C".to_string()), Some("a".to_string())]);
}

#[test]
fn sorting_reaches_every_node() {
    let l = dir("/r/top", vec![], vec![dir("/r/top/sub", vec![file("a.x", 1), file("b.y", 9)], vec![])]);
    let mut d = Directory::new(&l, 0, 2).unwrap();
    d.sort_by(ExtensionSortingMethod::FileSize);
    assert_eq!(names(&d.subdirectories()[0]), vec![Some("y".to_string()), Some("x".to_string())]);
}

#[test]
fn condensing_twice_changes_nothing() {
    let mut d = Directory::new(&nested(), 0, 10).unwrap();
    d.condense_to_depth(1);
    let s1 = &d.subdirectories()[0];
    assert_eq!(s1.subdirectories().len(), 0);
    assert_eq!(s1.count(Some("txt")), 2);
    assert_eq!(s1.size(Some("txt")), Some(10));
    assert_eq!(s1.count(Some("md")), 1);
    let first = d.draw(true).unwrap();
    d.condense_to_depth(1);
    assert_eq!(d.draw(true).unwrap(), first);
}

#[test]
fn condensing_keeps_totals() {
    let mut d = Directory::new(&nested(), 0, 10).unwrap();
    d.condense_to_depth(0);
    assert_eq!(d.subdirectories().len(), 0);
    assert_eq!(d.count(Some("txt")), 3);
    assert_eq!(d.size(Some("txt")), Some(11));
    assert_eq!(d.count(Some("md")), 1);
    assert_eq!(d.size(Some("md")), Some(4));
    let flat = Directory::new(&nested(), 0, 0).unwrap();
    assert_eq!(d.draw(true).unwrap(), flat.draw(true).unwrap());
}

#[test]
fn too_large_is_refused() {
    let l = dir("/r/big", vec![file("a.x", u64::MAX), file("b.x", 1)], vec![]);
    assert_eq!(Directory::new(&l, 0, 1).err(), Some(ScanError::TooLarge));
    let ok = dir("/r/big", vec![file("a.x", u64::MAX)], vec![]);
    assert!(Directory::new(&ok, 0, 1).is_ok());
}

#[test]
fn unnamed_root_is_refused() {
    let l = dir("/", vec![file("a.x", 1)], vec![]);
    let d = Directory::new(&l, 0, 1).unwrap();
    assert_eq!(d.name(), None);
    assert_eq!(d.draw(true).err(), Some(DrawError::UnnamedDirectory));
    let dots = dir("/r/..", vec![], vec![]);
    assert_eq!(Directory::new(&dots, 0, 1).unwrap().name(), None);
}

#[test]
fn hidden_unnamed_directory_is_not_drawn() {
    let l = dir("/r/top", vec![file("a.x", 1)], vec![dir("/r/top/..", vec![], vec![])]);
    let d = Directory::new(&l, 0, 2).unwrap();
    assert!(d.draw(false).is_ok());
    assert!(d.draw(true).is_err());
}

#[test]
fn pruning_drops_empty_directories() {
    let l = dir(
        "/r/root",
        vec![],
        vec![
            dir("/r/root/empty", vec![], vec![dir("/r/root/empty/inner", vec![], vec![])]),
            dir("/r/root/full", vec![file("x.txt", 3)], vec![dir("/r/root/full/none", vec![], vec![])]),
        ],
    );
    let mut d = Directory::new(&l, 0, 5).unwrap();
    d.prune_empty();
    assert_eq!(d.subdirectories().len(), 1);
    let full = &d.subdirectories()[0];
    assert_eq!(full.name(), Some("full".to_string()));
    assert_eq!(full.subdirectories().len(), 0);
    assert_eq!(full.count(Some("txt")), 1);
    assert_eq!(d.draw(true).unwrap(), d.draw(false).unwrap());
}

#[test]
fn vertical_bars_cover_ancestor_depths() {
    assert_eq!(vertical_bars(0, &vec![]), "");
    assert_eq!(vertical_bars(1, &vec![]), "");
    assert_eq!(vertical_bars(2, &vec![]), "│   ");
    assert_eq!(vertical_bars(4, &vec![0, 2]), "│       │   ");
    assert_eq!(item_line_text("x", true, 3, &vec![1]), "    │   └── x");
    assert_eq!(item_line_text("y", false, 1, &vec![0]), "├── y");
}

#[test]
fn names_ignore_trailing_separators() {
    let name = |p: &str| Directory::new(&dir(p, vec![], vec![]), 0, 1).unwrap().name();
    assert_eq!(name("/r/a/"), Some("a".to_string()));
    assert_eq!(name("/r/a/."), Some("a".to_string()));
    assert_eq!(name("/r/a/./"), Some("a".to_string()));
    assert_eq!(name("a//"), Some("a".to_string()));
    assert_eq!(name("/r/.hidden"), Some(".hidden".to_string()));
    assert_eq!(name("/"), None);
    assert_eq!(name("."), None);
    assert_eq!(name("/r/.."), None);
    assert_eq!(name("../"), None);
    assert_eq!(base_name_of("/a/b/"), "b");
}

#[test]
fn distinct_names_strictly_increase() {
    let l = dir(
        "/r/s",
        vec![],
        vec![dir("/r/s/b/", vec![], vec![]), dir("/r/s/c", vec![], vec![]), dir("/r/s/a/.", vec![], vec![])],
    );
    let d = Directory::new(&l, 0, 3).unwrap();
    let found: Vec<String> = d.subdirectories().iter().map(|c| c.name().unwrap()).collect();
    assert_eq!(found, vec!["a", "b", "c"]);
}
