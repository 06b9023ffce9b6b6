use maketree::builder::{
    entry_paths, looks_like_tree, mkdir_all, run_maketree_with_entries, Action, BuildError, Event,
};
use maketree::classify::collect_entries;
use maketree::entry::Options;
use maketree::fsmodel::FsModel;

fn lines(xs: &[&str]) -> Vec<String> {
    xs.iter().map(|s| s.to_string()).collect()
}

fn path(parts: &[&str]) -> Vec<String> {
    parts.iter().map(|s| s.to_string()).collect()
}

fn opts(dry_run: bool, force: bool) -> Options {
    Options {
        dry_run,
        force,
        verbose: 0,
    }
}

#[test]
fn depth_reconstruction() {
    let es = collect_entries(&lines(&["app/", "  src/", "    main.txt", "  Cargo.toml"]));
    let paths = entry_paths(&es);
    assert_eq!(
        paths,
        vec![
            path(&["app"]),
            path(&["app", "src"]),
            path(&["app", "src", "main.txt"]),
            path(&["app", "Cargo.toml"]),
        ]
    );
}

#[test]
fn materialize_fresh_tree() {
    let es = collect_entries(&lines(&["app/", "  src/", "    main.txt", "  Cargo.toml"]));
    let mut fs = FsModel::new();
    let report = run_maketree_with_entries(&es, opts(false, false), &mut fs);
    assert_eq!(report.error, None);
    assert_eq!(
        report.actions,
        vec![
            Action::MkDirAll(path(&["app"])),
            Action::MkDirAll(path(&["app", "src"])),
            Action::CreateFile(path(&["app", "src", "main.txt"])),
            Action::CreateFile(path(&["app", "Cargo.toml"])),
        ]
    );
    assert_eq!(fs.kind_at(&path(&["app"])), Some(true));
    assert_eq!(fs.kind_at(&path(&["app", "src"])), Some(true));
    assert_eq!(fs.kind_at(&path(&["app", "src", "main.txt"])), Some(false));
    assert_eq!(fs.kind_at(&path(&["app", "Cargo.toml"])), Some(false));
}

#[test]
fn second_run_is_a_no_op() {
    let es = collect_entries(&lines(&["app/", "  src/", "    main.txt", "  Cargo.toml"]));
    let mut fs = FsModel::new();
    let first = run_maketree_with_entries(&es, opts(false, false), &mut fs);
    assert_eq!(first.error, None);
    assert!(!first.actions.is_empty());
    let nodes_before = fs.nodes().len();
    let second = run_maketree_with_entries(&es, opts(false, false), &mut fs);
    assert_eq!(second.error, None);
    assert_eq!(second.actions, vec![], "no changes on the second run");
    assert_eq!(fs.nodes().len(), nodes_before);
}

#[test]
fn conflict_without_force() {
    let mut fs = FsModel::new();
    fs.set_node(&path(&["p"]), false);
    let es = collect_entries(&lines(&["p/"]));
    let report = run_maketree_with_entries(&es, opts(false, false), &mut fs);
    assert_eq!(
        report.error,
        Some(BuildError::Conflict {
            path: path(&["p"]),
            expected_dir: true,
        })
    );
    assert_eq!(report.actions, vec![], "no mutation on a conflict");
    assert_eq!(fs.kind_at(&path(&["p"])), Some(false), "the file is kept");
}

#[test]
fn conflict_file_where_dir_expected_reversed() {
    let mut fs = FsModel::new();
    fs.set_node(&path(&["p"]), true);
    let es = collect_entries(&lines(&["p"]));
    let report = run_maketree_with_entries(&es, opts(false, false), &mut fs);
    assert_eq!(
        report.error,
        Some(BuildError::Conflict {
            path: path(&["p"]),
            expected_dir: false,
        })
    );
    assert_eq!(report.actions, vec![]);
    assert_eq!(fs.kind_at(&path(&["p"])), Some(true));
}

#[test]
fn conflict_with_force_dry_run() {
    let mut fs = FsModel::new();
    fs.set_node(&path(&["p"]), false);
    let es = collect_entries(&lines(&["p/", "  x"]));
    let report = run_maketree_with_entries(&es, opts(true, true), &mut fs);
    assert_eq!(report.error, None);
    assert_eq!(report.actions, vec![], "a dry run performs nothing");
    assert_eq!(fs.kind_at(&path(&["p"])), Some(false), "model unchanged");
    assert!(report
        .events
        .contains(&Event::WouldRemoveFile(path(&["p"]))));
    assert!(report
        .events
        .contains(&Event::WouldTouch(path(&["p", "x"]))));
}

#[test]
fn force_replaces_file_with_directory() {
    let mut fs = FsModel::new();
    fs.set_node(&path(&["p"]), false);
    let es = collect_entries(&lines(&["p/"]));
    let report = run_maketree_with_entries(&es, opts(false, true), &mut fs);
    assert_eq!(report.error, None);
    assert_eq!(
        report.actions,
        vec![
            Action::RemoveFile(path(&["p"])),
            Action::MkDirAll(path(&["p"])),
        ]
    );
    assert_eq!(fs.kind_at(&path(&["p"])), Some(true));
    assert!(report
        .events
        .contains(&Event::RemovingFileForDir(path(&["p"]))));
}

#[test]
fn force_replaces_directory_with_file() {
    let mut fs = FsModel::new();
    fs.set_node(&path(&["d"]), true);
    fs.set_node(&path(&["d", "inner.txt"]), false);
    let es = collect_entries(&lines(&["d"]));
    let report = run_maketree_with_entries(&es, opts(false, true), &mut fs);
    assert_eq!(report.error, None);
    assert_eq!(
        report.actions,
        vec![
            Action::RemoveDirAll(path(&["d"])),
            Action::CreateFile(path(&["d"])),
        ]
    );
    assert_eq!(fs.kind_at(&path(&["d"])), Some(false));
    assert_eq!(
        fs.kind_at(&path(&["d", "inner.txt"])),
        None,
        "the subtree went with the directory"
    );
}

#[test]
fn existing_file_left_alone() {
    let mut fs = FsModel::new();
    fs.set_node(&path(&["a.txt"]), false);
    let es = collect_entries(&lines(&["a.txt"]));
    let report = run_maketree_with_entries(&es, opts(false, false), &mut fs);
    assert_eq!(report.error, None);
    assert_eq!(report.actions, vec![]);
}

#[test]
fn dry_run_reports_creation_without_mutation() {
    let es = collect_entries(&lines(&["app/", "  src/"]));
    let mut fs = FsModel::new();
    let report = run_maketree_with_entries(&es, opts(true, false), &mut fs);
    assert_eq!(report.error, None);
    assert_eq!(report.actions, vec![]);
    assert_eq!(fs.kind_at(&path(&["app"])), None);
    assert!(report.events.contains(&Event::WouldMkdir(path(&["app"]))));
    assert!(report
        .events
        .contains(&Event::WouldMkdir(path(&["app", "src"]))));
}

#[test]
fn file_in_ancestor_chain_is_reported() {
    let mut fs = FsModel::new();
    fs.set_node(&path(&["a"]), false);
    let mut acts = Vec::new();
    let r = mkdir_all(&mut fs, &path(&["a", "b"]), &mut acts);
    assert_eq!(
        r,
        Err(BuildError::NotADirectory {
            path: path(&["a"]),
        })
    );
    assert_eq!(acts, vec![]);
}

#[test]
fn event_levels() {
    assert_eq!(Event::WouldMkdir(path(&["a"])).level(), 0);
    assert_eq!(Event::RemovingFileForDir(path(&["a"])).level(), 1);
    assert_eq!(Event::MkdirTrace(path(&["a"])).level(), 2);
}

#[test]
fn tree_likeness() {
    let flat = collect_entries(&lines(&["a.txt", "b.txt"]));
    assert!(!looks_like_tree(&flat));
    let nested = collect_entries(&lines(&["app/", "  src"]));
    assert!(looks_like_tree(&nested));
}

#[test]
fn round_trip_structure() {
    let input = lines(&["app/", "  src/", "    main.txt", "  Cargo.toml"]);
    let es = collect_entries(&input);
    let mut fs = FsModel::new();
    let report = run_maketree_with_entries(&es, opts(false, false), &mut fs);
    assert_eq!(report.error, None);

    // the materialized set of relative paths and type flags
    let mut made: Vec<(String, bool)> = fs
        .nodes()
        .iter()
        .map(|n| (n.path.join("/"), n.is_dir))
        .collect();
    made.sort();
    let mut expected = vec![
        ("app".to_string(), true),
        ("app/src".to_string(), true),
        ("app/src/main.txt".to_string(), false),
        ("app/Cargo.toml".to_string(), false),
    ];
    expected.sort();
    assert_eq!(made, expected);

    // re-describe the model depth-first and parse the description again
    let mut nodes: Vec<(Vec<String>, bool)> = fs
        .nodes()
        .iter()
        .map(|n| (n.path.clone(), n.is_dir))
        .collect();
    nodes.sort();
    let rendered: Vec<String> = nodes
        .iter()
        .map(|(p, is_dir)| {
            let indent = "  ".repeat(p.len() - 1);
            let slash = if *is_dir { "/" } else { "" };
            format!("{}{}{}", indent, p.last().unwrap(), slash)
        })
        .collect();
    let es2 = collect_entries(&rendered);
    let paths2 = entry_paths(&es2);
    let mut described: Vec<(String, bool)> = es2
        .iter()
        .zip(paths2.iter())
        .map(|(e, p)| (p.join("/"), e.is_dir))
        .collect();
    described.sort();
    assert_eq!(described, expected, "re-describing reproduces the same set");
}

#[test]
fn default_options_are_quiet_and_safe() {
    let o = Options::default();
    assert!(!o.dry_run);
    assert!(!o.force);
    assert_eq!(o.verbose, 0);
}

#[test]
fn repeated_trailing_slashes_are_stripped() {
    let es = collect_entries(&lines(&["dir///"]));
    assert!(es[0].is_dir);
    let paths = entry_paths(&es);
    assert_eq!(paths, vec![path(&["dir"])]);
}

#[test]
fn names_may_hold_spaces() {
    let es = collect_entries(&lines(&["  my file.txt"]));
    assert_eq!(es[0].name, "my file.txt");
    assert_eq!(es[0].depth, 1);
}

#[test]
fn depth_gap_is_flattened() {
    // a jump of two levels leaves an unnamed intermediate level, which is
    // skipped when the path is composed
    let es = collect_entries(&lines(&["top/", "      deep.txt"]));
    let paths = entry_paths(&es);
    assert_eq!(paths, vec![path(&["top"]), path(&["top", "deep.txt"])]);
}

#[test]
fn sibling_directory_replaces_stack_slot() {
    let es = collect_entries(&lines(&["a/", "  one.txt", "b/", "  two.txt"]));
    let paths = entry_paths(&es);
    assert_eq!(
        paths,
        vec![
            path(&["a"]),
            path(&["a", "one.txt"]),
            path(&["b"]),
            path(&["b", "two.txt"]),
        ]
    );
}

#[test]
fn tree_output_with_connectors_builds() {
    let input = lines(&[
        ".",
        "├── docs",
        "│   └── readme.md",
        "└── main.c",
        "",
        "2 directories, 2 files",
    ]);
    let es = collect_entries(&input);
    let mut fs = FsModel::new();
    let report = run_maketree_with_entries(&es, opts(false, false), &mut fs);
    assert_eq!(report.error, None);
    assert_eq!(fs.kind_at(&path(&["docs"])), Some(true));
    assert_eq!(fs.kind_at(&path(&["docs", "readme.md"])), Some(false));
    assert_eq!(fs.kind_at(&path(&["main.c"])), Some(false));
}
