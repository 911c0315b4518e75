use portmod::build_ignore_set;
use portmod::collect_members;
use portmod::detect_conflicts;
use portmod::encoding_uses_isolating;
use portmod::entry_kept;
use portmod::rel_of_exec;
use portmod::scan;
use portmod::DetectError;
use portmod::FsEntry;
use portmod::GroupRoot;

fn file(path: &str) -> FsEntry {
    FsEntry {
        path: path.to_string(),
        is_dir: false,
    }
}

fn dir(path: &str) -> FsEntry {
    FsEntry {
        path: path.to_string(),
        is_dir: true,
    }
}

fn strings(items: &[&str]) -> Vec<String> {
    items.iter().map(|s| s.to_string()).collect()
}

#[test]
fn ignore_set_lowercases_and_splits() {
    let built = build_ignore_set(&strings(&["Foo,BAR", "baz"]));
    assert_eq!(built, vec!["foo", "bar", "baz"]);
}

#[test]
fn extension_filter_case_insensitive() {
    let ignore = build_ignore_set(&strings(&["bak"]));
    let entries = vec![dir("root"), file("root/a.txt"), file("root/a.BAK")];
    let members = collect_members(&entries, "root", &ignore).unwrap();
    assert_eq!(members, vec!["a.txt"]);
}

#[test]
fn no_extension_never_filtered() {
    let ignore = build_ignore_set(&strings(&["bashrc", "makefile", ""]));
    let entries = vec![
        dir("root"),
        file("root/.bashrc"),
        file("root/Makefile"),
        file("root/notes.bashrc"),
    ];
    let members = collect_members(&entries, "root", &ignore).unwrap();
    assert_eq!(members, vec![".bashrc", "Makefile"]);
}

#[test]
fn relative_paths() {
    assert_eq!(
        rel_of_exec("root/a/b.txt", "root"),
        Some("a/b.txt".to_string())
    );
    assert_eq!(
        rel_of_exec("root/a/b.txt", "root/"),
        Some("a/b.txt".to_string())
    );
    assert_eq!(rel_of_exec("root", "root"), Some(String::new()));
    assert_eq!(rel_of_exec("elsewhere/x", "root"), None);
    assert_eq!(rel_of_exec("rootless/x", "root"), None);
}

#[test]
fn outside_root_is_fatal() {
    let entries = vec![file("root/a.txt"), file("elsewhere/b.txt")];
    let err = collect_members(&entries, "root", &Vec::new()).err().unwrap();
    assert_eq!(err.path, "elsewhere/b.txt");
    assert_eq!(err.root, "root");
}

#[test]
fn duplicate_walk_entries_become_one_member() {
    let entries = vec![file("root/a.txt"), file("root/a.txt")];
    let members = collect_members(&entries, "root", &Vec::new()).unwrap();
    assert_eq!(members, vec!["a.txt"]);
}

#[test]
fn directories_are_never_members() {
    let entries = vec![dir("root"), dir("root/sub"), file("root/sub/a.txt")];
    let members = collect_members(&entries, "root", &Vec::new()).unwrap();
    assert_eq!(members, vec!["sub/a.txt"]);
}

#[test]
fn scan_missing_root_is_empty() {
    let members = scan("no_such_directory_anywhere_here", &Vec::new()).unwrap();
    assert_eq!(members.len(), 0);
}

#[test]
fn detect_conflicts_duplicate_names_rejected() {
    let groups = vec![
        GroupRoot {
            name: "Same".to_string(),
            root: "no_such_root_a".to_string(),
        },
        GroupRoot {
            name: "Same".to_string(),
            root: "no_such_root_b".to_string(),
        },
    ];
    let err = detect_conflicts(&groups, &Vec::new(), "Directories", "Files")
        .err()
        .unwrap();
    assert!(matches!(err, DetectError::DuplicateGroupName));
}

#[test]
fn detect_conflicts_empty_groups_succeed() {
    let r = detect_conflicts(&Vec::new(), &Vec::new(), "Directories", "Files");
    assert!(r.is_ok());
}

#[test]
fn detect_conflicts_without_conflicts_succeeds() {
    let groups = vec![
        GroupRoot {
            name: "A".to_string(),
            root: "no_such_root_a".to_string(),
        },
        GroupRoot {
            name: "B".to_string(),
            root: "no_such_root_b".to_string(),
        },
    ];
    let r = detect_conflicts(&groups, &Vec::new(), "Directories", "Files");
    assert!(r.is_ok());
}

#[test]
fn filtered_extension_with_uppercase_list() {
    let ignore = build_ignore_set(&strings(&["TXT"]));
    assert!(!entry_kept("dir/file.txt", &ignore));
    assert!(!entry_kept("dir/file.TXT", &ignore));
    assert!(entry_kept("dir/file.dds", &ignore));
}

#[test]
fn encoding_isolating_decision() {
    assert!(encoding_uses_isolating("utf-8"));
    assert!(encoding_uses_isolating("utf-16"));
    assert!(!encoding_uses_isolating("ascii"));
    assert!(!encoding_uses_isolating("utf"));
    assert!(!encoding_uses_isolating("UTF-8"));
}
