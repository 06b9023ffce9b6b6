use maketree::classify::{
    classify_line, classify_path_line, collect_entries, is_stats_line, parse_indent_list_depth,
    parse_tree_style_depth, relative_listing_entry,
};
use maketree::entry::Entry;

fn lines(xs: &[&str]) -> Vec<String> {
    xs.iter().map(|s| s.to_string()).collect()
}

#[test]
fn stats_line_variants() {
    assert!(is_stats_line("3 directories, 2 files"));
    assert!(is_stats_line("1 directory, 0 files"));
    assert!(is_stats_line("  12 directories, 7 files  "));
    assert!(!is_stats_line("directories and files"));
    assert!(!is_stats_line("3 directories"));
    assert!(!is_stats_line("7 files"));
    assert!(!is_stats_line("src/"));
}

#[test]
fn indent_list_depths() {
    assert_eq!(parse_indent_list_depth("app/"), (0, "app/".to_string()));
    assert_eq!(parse_indent_list_depth("  src/"), (1, "src/".to_string()));
    assert_eq!(
        parse_indent_list_depth("    main.txt"),
        (2, "main.txt".to_string())
    );
    // three spaces still land at depth one
    assert_eq!(parse_indent_list_depth("   odd"), (1, "odd".to_string()));
}

#[test]
fn tree_style_depths() {
    assert_eq!(
        parse_tree_style_depth("├── src/"),
        Some((0, "src/".to_string()))
    );
    assert_eq!(
        parse_tree_style_depth("│   └── main.rs"),
        Some((1, "main.rs".to_string()))
    );
    assert_eq!(
        parse_tree_style_depth("│   │   ├── deep.txt"),
        Some((2, "deep.txt".to_string()))
    );
    assert_eq!(
        parse_tree_style_depth("    └── nested"),
        Some((1, "nested".to_string()))
    );
    assert_eq!(parse_tree_style_depth("plain line"), None);
}

#[test]
fn ignored_lines() {
    assert_eq!(classify_line(""), None);
    assert_eq!(classify_line("   "), None);
    assert_eq!(classify_line("."), None);
    assert_eq!(classify_line("  .  "), None);
    assert_eq!(classify_line("3 directories, 7 files"), None);
}

#[test]
fn classified_entry() {
    assert_eq!(
        classify_line("  notes.txt"),
        Some(Entry {
            depth: 1,
            name: "notes.txt".to_string(),
            is_dir: false,
        })
    );
    assert_eq!(
        classify_line("docs/"),
        Some(Entry {
            depth: 0,
            name: "docs/".to_string(),
            is_dir: true,
        })
    );
}

#[test]
fn inference_upgrades_on_deeper_follower() {
    let es = collect_entries(&lines(&["A", "  B"]));
    assert_eq!(es.len(), 2);
    assert!(es[0].is_dir, "A must be inferred as a directory");
    assert!(!es[1].is_dir);
}

#[test]
fn inference_leaves_lone_entry_a_file() {
    let es = collect_entries(&lines(&["A"]));
    assert_eq!(es.len(), 1);
    assert!(!es[0].is_dir, "a lone entry stays a file");
}

#[test]
fn inference_never_downgrades() {
    let es = collect_entries(&lines(&["a/", "b.txt"]));
    assert!(es[0].is_dir);
    assert!(!es[1].is_dir);
}

#[test]
fn stats_line_ignored_anywhere() {
    let with_stats = collect_entries(&lines(&["app/", "3 directories, 7 files", "  src/"]));
    let without = collect_entries(&lines(&["app/", "  src/"]));
    assert_eq!(with_stats, without);
    let leading = collect_entries(&lines(&["3 directories, 7 files", "app/", "  src/"]));
    assert_eq!(leading, without);
}

#[test]
fn relative_listing_entries() {
    assert_eq!(
        relative_listing_entry("/tmp/root/src", "/tmp/root/", true),
        Some("src/".to_string())
    );
    assert_eq!(
        relative_listing_entry("/tmp/root/src/lib.c", "/tmp/root/", false),
        Some("src/lib.c".to_string())
    );
    assert_eq!(
        relative_listing_entry("/tmp/root", "/tmp/root/", true),
        Some("./".to_string())
    );
    assert_eq!(
        relative_listing_entry("/tmp/elsewhere/x", "/tmp/root/", false),
        None
    );
}

#[test]
fn path_list_lines() {
    assert_eq!(classify_path_line("docs/"), Some(("docs".to_string(), true)));
    assert_eq!(
        classify_path_line("a/b.txt"),
        Some(("a/b.txt".to_string(), false))
    );
    assert_eq!(classify_path_line("   "), None);
    assert_eq!(classify_path_line(""), None);
}
