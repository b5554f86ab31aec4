use neuraldeep_desktop::diff::{
    is_work_tree, parse_name_status, tracked_changes, untracked_entry, untracked_patch,
    untracked_paths, workspace_files, DiffFile,
};

#[test]
fn work_tree_detection() {
    assert!(is_work_tree(Some("true\n".to_string())));
    assert!(!is_work_tree(Some("false\n".to_string())));
    assert!(!is_work_tree(None));
}

#[test]
fn name_status_lines() {
    assert_eq!(parse_name_status("M\tsrc/lib.rs"), Some(("M".to_string(), "src/lib.rs".to_string())));
    assert_eq!(parse_name_status("  D   a b"), Some(("D".to_string(), "a".to_string())));
    assert_eq!(parse_name_status("M"), None);
    assert_eq!(parse_name_status("   "), None);
}

#[test]
fn untracked_as_additions() {
    assert_eq!(untracked_patch("a\nb\n"), "@@ new file @@\n+a\n+b\n");
    assert_eq!(untracked_patch(""), "@@ new file @@\n");
    let big: String = (0..600).map(|i| format!("l{i}\n")).collect();
    let p = untracked_patch(&big);
    assert_eq!(p.lines().count(), 501);
    assert!(p.ends_with("+l499\n"));
    let e = untracked_entry("new.txt".to_string(), "x");
    assert_eq!(e.path, "new.txt");
    assert_eq!(e.status, "A");
    assert_eq!(e.patch, "@@ new file @@\n+x\n");
}

#[test]
fn untracked_list() {
    assert_eq!(untracked_paths("a\n\nb\n"), vec!["a".to_string(), "b".to_string()]);
    assert!(untracked_paths("").is_empty());
}

#[test]
fn name_status_listing() {
    let r = tracked_changes("M\tsrc/a.rs\n\nA  b.txt\r\nD\n R100\told\tnew\n");
    assert_eq!(
        r,
        vec![
            ("M".to_string(), "src/a.rs".to_string()),
            ("A".to_string(), "b.txt".to_string()),
            ("R100".to_string(), "old".to_string()),
        ]
    );
    assert!(tracked_changes("").is_empty());
}

#[test]
fn changed_files_come_before_untracked_ones() {
    let changed = vec![DiffFile { path: "a".into(), status: "M".into(), patch: "p".into() }];
    let untracked = vec![("n.txt".to_string(), "x\ny".to_string())];
    let files = workspace_files(changed, &untracked);
    assert_eq!(files.len(), 2);
    assert_eq!((files[0].path.as_str(), files[0].status.as_str(), files[0].patch.as_str()), ("a", "M", "p"));
    assert_eq!(files[1].path, "n.txt");
    assert_eq!(files[1].status, "A");
    assert_eq!(files[1].patch, "@@ new file @@\n+x\n+y\n");
    assert!(workspace_files(Vec::new(), &Vec::new()).is_empty());
}
