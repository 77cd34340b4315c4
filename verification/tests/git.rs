use ask::git::{
    detect_repo_marker, enclosed_plan, enclosing_repo_root, gitdir_points_to_submodule,
    parse_git_path_list, parse_gitdir_pointer, should_skip_git_candidate, should_visit_walk_entry,
    GitEntry, GitScan, InvalidPointer, RepoMarker,
};

#[test]
fn submodules_keep_their_repositories_in_modules() {
    assert!(gitdir_points_to_submodule("/r/.git/modules/lib"));
    assert!(gitdir_points_to_submodule("../.git/./modules/lib"));
    assert!(!gitdir_points_to_submodule("/r/.git/worktrees/x"));
    assert!(!gitdir_points_to_submodule("/r/.git/worktrees/modules"));
    assert!(!gitdir_points_to_submodule("/r/modules/.git"));
    assert!(gitdir_points_to_submodule("/r/.git/../modules"));
}

#[test]
fn pointers_are_read() {
    assert_eq!(
        parse_gitdir_pointer("/r/sub", "gitdir: ../.git/modules/sub\n"),
        Ok("/r/sub/../.git/modules/sub".to_string())
    );
    assert_eq!(
        parse_gitdir_pointer("/r/sub", " gitdir:/abs/path "),
        Ok("/abs/path".to_string())
    );
    for text in ["", "gitdir:", "gitdir:  \n", "git dir: x", "gitdi"] {
        assert_eq!(parse_gitdir_pointer("/r", text), Err(InvalidPointer), "{text:?}");
    }
}

#[test]
fn directories_are_marked_by_their_entry() {
    let file = |text: &str| GitEntry::File {
        text: text.to_string(),
    };
    assert_eq!(detect_repo_marker("/r", &GitEntry::Missing), Ok(None));
    assert_eq!(detect_repo_marker("/r", &GitEntry::Other), Ok(None));
    assert_eq!(
        detect_repo_marker("/r", &GitEntry::Directory { has_head: true }),
        Ok(Some(RepoMarker::Repo))
    );
    assert_eq!(
        detect_repo_marker("/r", &GitEntry::Directory { has_head: false }),
        Ok(None)
    );
    assert_eq!(
        detect_repo_marker("/r/s", &file("gitdir: ../.git/modules/s")),
        Ok(Some(RepoMarker::Submodule))
    );
    assert_eq!(
        detect_repo_marker("/r/w", &file("gitdir: /main/.git/worktrees/w")),
        Ok(Some(RepoMarker::Repo))
    );
    assert_eq!(detect_repo_marker("/r", &file("nonsense")), Err(InvalidPointer));
}

#[test]
fn lists_of_paths_are_split() {
    assert_eq!(
        parse_git_path_list(b"a.txt\0dir/b\0\0c\xff\0"),
        vec![b"a.txt".to_vec(), b"dir/b".to_vec(), b"c\xff".to_vec()]
    );
    assert_eq!(parse_git_path_list(b"last"), vec![b"last".to_vec()]);
    assert!(parse_git_path_list(b"").is_empty());
    assert!(parse_git_path_list(b"\0\0").is_empty());
}

#[test]
fn walks_skip_roots() {
    let skipped = ["/r/sub".to_string(), "/r/repo/".to_string()];
    assert!(should_visit_walk_entry("/r", "/r", &skipped));
    assert!(should_visit_walk_entry("/r/subway", "/r", &skipped));
    assert!(!should_visit_walk_entry("/r/sub", "/r", &skipped));
    assert!(!should_visit_walk_entry("/r/repo/src/x", "/r", &skipped));
    assert!(should_visit_walk_entry("/r/sub", "/r/sub/", &skipped));
}

#[test]
fn files_without_text_are_skipped() {
    for path in ["/a/logo.png", "/a/B.JPEG", "x.tar.gz", "lib.so", "db.SQLite"] {
        assert!(should_skip_git_candidate(path), "{path}");
    }
    for path in ["/a/main.rs", "png", ".png", "/a/notes", "a.pngx", ""] {
        assert!(!should_skip_git_candidate(path), "{path}");
    }
}

#[test]
fn repositories_are_searched_from_the_last_found() {
    let mut scan = GitScan::start("/r");
    assert_eq!(scan.next(), Some("/r".to_string()));
    scan.record(
        "/r".to_string(),
        None,
        vec!["/r/a".to_string(), "/r/b".to_string(), "/r/c".to_string()],
    );
    assert_eq!(scan.next(), Some("/r/c".to_string()));
    scan.record("/r/c".to_string(), Some(RepoMarker::Repo), vec!["/r/c/x".to_string()]);
    assert_eq!(scan.next(), Some("/r/b".to_string()));
    scan.record("/r/b".to_string(), Some(RepoMarker::Submodule), Vec::new());
    assert_eq!(scan.next(), Some("/r/a".to_string()));
    scan.record("/r/a".to_string(), None, Vec::new());
    assert_eq!(scan.next(), None);

    let plan = scan.finish();
    assert_eq!(plan.repo_roots, vec!["/r/c"]);
    assert_eq!(plan.fallback_root, Some("/r".to_string()));
    assert_eq!(plan.skipped_walk_roots, vec!["/r/b", "/r/c"]);

    let enclosed = enclosed_plan("/repo".to_string());
    assert_eq!(enclosed.repo_roots, vec!["/repo"]);
    assert_eq!(enclosed.fallback_root, None);
    assert!(enclosed.skipped_walk_roots.is_empty());
}

#[test]
fn enclosing_roots_are_read() {
    assert_eq!(enclosing_repo_root(true, "/repo\n"), Some("/repo".to_string()));
    assert_eq!(enclosing_repo_root(true, " \n"), None);
    assert_eq!(enclosing_repo_root(false, "/repo\n"), None);
}
