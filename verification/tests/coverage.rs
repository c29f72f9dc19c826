use telos_cli::coverage::{
    build_tree, coverage_report, coverage_summary, format_count, name_column_width, render_tree, source_files,
    sorted_by_count, DirNode, FileEntry,
};

fn entries(v: &[(&str, usize)]) -> Vec<(String, usize)> {
    v.iter().map(|(p, c)| (p.to_string(), *c)).collect()
}

fn parts(p: &str) -> Vec<String> {
    p.split('/').map(String::from).collect()
}

#[test]
fn counts() {
    assert_eq!(format_count(0), "-");
    assert_eq!(format_count(1), "1 constraint");
    assert_eq!(format_count(5), "5 constraints");
    assert_eq!(format_count(120), "120 constraints");
}

#[test]
fn insert_builds_directories() {
    let mut root = DirNode::new("");
    root.insert(&parts("src/b/x.rs"), 2);
    root.insert(&parts("src/a.rs"), 1);
    root.insert(&parts("lib/y.rs"), 0);
    root.insert(&parts("top.rs"), 4);
    assert_eq!(root.files.len(), 1);
    assert_eq!(root.files[0].name, "top.rs");
    assert_eq!(root.subdirs.len(), 2);
    assert_eq!(root.subdirs[0].name, "lib");
    assert_eq!(root.subdirs[1].name, "src");
    let src = &root.subdirs[1];
    assert_eq!(src.files.len(), 1);
    assert_eq!(src.files[0].name, "a.rs");
    assert_eq!(src.files[0].count, 1);
    assert_eq!(src.subdirs.len(), 1);
    assert_eq!(src.subdirs[0].name, "b");
    assert_eq!(src.subdirs[0].files[0].name, "x.rs");
}

#[test]
fn insert_reuses_existing_directories() {
    let mut root = DirNode::new("");
    root.insert(&parts("src/a.rs"), 1);
    root.insert(&parts("src/b.rs"), 2);
    assert_eq!(root.subdirs.len(), 1);
    assert_eq!(root.subdirs[0].files.len(), 2);
    assert_eq!(root.subdirs[0].files[1].name, "b.rs");
}

#[test]
fn subdirectories_sort_by_bytes() {
    let mut root = DirNode::new("");
    for p in ["b/x", "B/x", "a/x", "ab/x", "é/x", "a/y"] {
        root.insert(&parts(p), 0);
    }
    let names: Vec<&str> = root.subdirs.iter().map(|d| d.name.as_str()).collect();
    assert_eq!(names, vec!["B", "a", "ab", "b", "é"]);
}

#[test]
fn files_sort_by_count_keeping_ties_in_order() {
    let files = vec![
        FileEntry { name: "a".to_string(), count: 0 },
        FileEntry { name: "b".to_string(), count: 2 },
        FileEntry { name: "c".to_string(), count: 0 },
        FileEntry { name: "d".to_string(), count: 5 },
        FileEntry { name: "e".to_string(), count: 2 },
    ];
    let sorted = sorted_by_count(&files);
    let names: Vec<&str> = sorted.iter().map(|f| f.name.as_str()).collect();
    assert_eq!(names, vec!["d", "b", "e", "a", "c"]);
}

#[test]
fn listing_keeps_source_files() {
    let listing = "src/a.rs\nREADME.md\n\nlib/x.py\r\nMakefile\nweb/app.tsx\nnotes.rs.bak\nrs\n";
    assert_eq!(source_files(listing), vec!["src/a.rs", "lib/x.py", "web/app.tsx", "rs"]);
}

#[test]
fn listing_without_final_newline() {
    assert_eq!(source_files("a.go\nb.c"), vec!["a.go", "b.c"]);
    assert!(source_files("").is_empty());
    assert!(source_files("\n\n").is_empty());
}

#[test]
fn name_column() {
    assert_eq!(name_column_width(&entries(&[])), 12);
    assert_eq!(name_column_width(&entries(&[("src/main.rs", 1), ("a/helpers.rs", 0)])), 10);
    assert_eq!(name_column_width(&entries(&[("é.rs", 1)])), 5);
}

#[test]
fn summary_totals() {
    let s = coverage_summary(&entries(&[("src/main.rs", 3), ("src/util/helpers.rs", 0), ("build.rs", 1)]));
    assert_eq!(s.total_files, 3);
    assert_eq!(s.covered_files, 2);
    assert_eq!(s.total_constraints, 4);
    assert_eq!(s.max_count, 3);
    assert_eq!(s.uncovered_files(), 1);
    assert_eq!(s.coverage_percent(), 66);
}

#[test]
fn summary_of_nothing() {
    let s = coverage_summary(&entries(&[]));
    assert_eq!(s.total_files, 0);
    assert_eq!(s.coverage_percent(), 0);
}

#[test]
fn tree_rendering() {
    let e = entries(&[("src/main.rs", 3), ("src/util/helpers.rs", 0), ("build.rs", 1)]);
    let root = build_tree(&e, 3);
    assert_eq!(
        render_tree(&root, 10, 3),
        vec![
            "src/",
            "│  ├─ util/",
            "│  │  └─ helpers.rs ░░░░░░░░ -",
            "│  └─ main.rs    ████████ 3 constraints",
            "build.rs   ███░░░░░ 1 constraint",
        ]
    );
}

#[test]
fn last_top_level_directory_has_blank_column() {
    let e = entries(&[("a/x.rs", 1), ("b/y.rs", 2)]);
    let root = build_tree(&e, 2);
    assert_eq!(
        render_tree(&root, 4, 2),
        vec!["a/", "│  └─ x.rs ████░░░░ 1 constraint", "b/", "   └─ y.rs ████████ 2 constraints"]
    );
}

#[test]
fn coverage_view() {
    let e = entries(&[("src/main.rs", 3), ("src/util/helpers.rs", 0), ("build.rs", 1)]);
    assert_eq!(
        coverage_report(&e),
        vec![
            "Constraint Coverage",
            "───────────────────",
            "",
            "src/",
            "│  ├─ util/",
            "│  │  └─ helpers.rs ░░░░░░░░ -",
            "│  └─ main.rs    ████████ 3 constraints",
            "build.rs   ███░░░░░ 1 constraint",
            "",
            "Summary: 4 constraints across 2/3 files (66%)",
            "         1 file uncovered",
        ]
    );
}

#[test]
fn coverage_view_fully_covered() {
    let e = entries(&[("a.rs", 1)]);
    assert_eq!(
        coverage_report(&e),
        vec![
            "Constraint Coverage",
            "───────────────────",
            "",
            "a.rs ████████ 1 constraint",
            "",
            "Summary: 1 constraint across 1/1 files (100%)",
        ]
    );
}

#[test]
fn coverage_view_of_no_files() {
    assert_eq!(coverage_report(&entries(&[])), vec!["No source files found."]);
}

#[test]
fn every_file_appears_once() {
    let e = entries(&[("a/b/c.rs", 1), ("a/d.rs", 2), ("e.rs", 0), ("a/b/f.rs", 0)]);
    let lines = coverage_report(&e);
    for name in ["c.rs", "d.rs", "e.rs", "f.rs"] {
        assert_eq!(lines.iter().filter(|l| l.contains(name)).count(), 1);
    }
}
