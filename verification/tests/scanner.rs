use fleet_dedup::scanner::{scan_repos, scan_repos_recursive, step, DirEntry, Repo, Step};
use std::path::PathBuf;

fn dir_entry(parent: &str, name: &str, has_git: bool, children: Vec<DirEntry>) -> DirEntry {
    DirEntry {
        path: PathBuf::from(parent).join(name),
        name: name.to_string(),
        is_dir: true,
        has_git,
        children: Some(children),
    }
}

fn repo_entry(parent: &str, name: &str) -> DirEntry {
    let path = format!("{}/{}", parent, name);
    dir_entry(parent, name, true, vec![dir_entry(&path, ".git", false, vec![])])
}

fn file_entry(parent: &str, name: &str) -> DirEntry {
    DirEntry {
        path: PathBuf::from(parent).join(name),
        name: name.to_string(),
        is_dir: false,
        has_git: false,
        children: None,
    }
}

fn names_of(repos: &[Repo]) -> Vec<&str> {
    repos.iter().map(|r| r.name.as_str()).collect()
}

#[test]
fn test_scan_empty_dir() {
    let repos = scan_repos(Some(vec![]));
    assert!(repos.is_empty());
}

#[test]
fn test_scan_single_repo() {
    let repos = scan_repos(Some(vec![repo_entry("/tmp", "my-repo")]));
    assert_eq!(repos.len(), 1);
    assert_eq!(repos[0].name, "my-repo");
    assert_eq!(repos[0].path, PathBuf::from("/tmp/my-repo"));
}

#[test]
fn test_scan_multiple_repos() {
    let repos = scan_repos(Some(vec![
        repo_entry("/tmp", "repo-a"),
        repo_entry("/tmp", "repo-b"),
        repo_entry("/tmp", "repo-c"),
    ]));
    assert_eq!(repos.len(), 3);
}

#[test]
fn test_scan_skips_hidden_dirs() {
    let repos = scan_repos(Some(vec![repo_entry("/tmp", ".hidden-repo")]));
    assert!(repos.is_empty());
}

#[test]
fn test_scan_nested_directory() {
    let nested = dir_entry("/tmp", "subdir", false, vec![repo_entry("/tmp/subdir", "nested-repo")]);
    let repos = scan_repos(Some(vec![nested]));
    assert_eq!(repos.len(), 1);
    assert_eq!(repos[0].name, "nested-repo");
}

#[test]
fn test_scan_does_not_recurse_into_git_repos() {
    let outer = dir_entry(
        "/tmp",
        "outer",
        true,
        vec![
            dir_entry("/tmp/outer", ".git", false, vec![]),
            repo_entry("/tmp/outer", "submodule"),
        ],
    );
    let repos = scan_repos(Some(vec![outer]));
    assert_eq!(repos.len(), 1);
    assert_eq!(repos[0].name, "outer");
}

#[test]
fn test_scan_results_sorted() {
    let repos = scan_repos(Some(vec![
        repo_entry("/tmp", "zebra"),
        repo_entry("/tmp", "alpha"),
        repo_entry("/tmp", "middle"),
    ]));
    assert_eq!(names_of(&repos), vec!["alpha", "middle", "zebra"]);
}

#[test]
fn unreadable_directories_have_no_repos() {
    assert!(scan_repos(None).is_empty());
    let mut locked = dir_entry("/tmp", "locked", false, vec![]);
    locked.children = None;
    let repos = scan_repos(Some(vec![locked, repo_entry("/tmp", "open")]));
    assert_eq!(names_of(&repos), vec!["open"]);
}

#[test]
fn files_are_skipped() {
    let repos = scan_repos(Some(vec![file_entry("/tmp", "notes.txt"), repo_entry("/tmp", "a")]));
    assert_eq!(names_of(&repos), vec!["a"]);
}

#[test]
fn repos_of_one_name_keep_the_order_they_are_met() {
    let repos = scan_repos(Some(vec![
        dir_entry("/tmp", "y", false, vec![repo_entry("/tmp/y", "tool")]),
        repo_entry("/tmp", "zoo"),
        dir_entry("/tmp", "x", false, vec![repo_entry("/tmp/x", "tool")]),
        repo_entry("/tmp", "ant"),
    ]));
    assert_eq!(names_of(&repos), vec!["ant", "tool", "tool", "zoo"]);
    assert_eq!(repos[1].path, PathBuf::from("/tmp/y/tool"));
    assert_eq!(repos[2].path, PathBuf::from("/tmp/x/tool"));
}

#[test]
fn names_are_ordered_as_texts() {
    let repos = scan_repos(Some(vec![
        repo_entry("/tmp", "b"),
        repo_entry("/tmp", "a\u{e9}"),
        repo_entry("/tmp", "a"),
        repo_entry("/tmp", "B"),
        repo_entry("/tmp", "a-b"),
    ]));
    assert_eq!(names_of(&repos), vec!["B", "a", "a-b", "a\u{e9}", "b"]);
}

#[test]
fn scanning_adds_to_what_was_found() {
    let mut repos: Vec<Repo> = vec![Repo { path: PathBuf::from("/old"), name: "old".to_string() }];
    scan_repos_recursive(
        Some(vec![repo_entry("/tmp", "z"), repo_entry("/tmp", "a")]),
        &mut repos,
    );
    assert_eq!(names_of(&repos), vec!["old", "z", "a"]);
}

#[test]
fn a_copy_of_a_repo_is_the_same() {
    let repos = scan_repos(Some(vec![repo_entry("/tmp", "a")]));
    let copy = repos[0].clone();
    assert_eq!((copy.name.as_str(), copy.path), ("a", PathBuf::from("/tmp/a")));
}

#[test]
fn steps_of_a_scan() {
    assert_eq!(step("notes.txt", false, false), Step::Skip);
    assert_eq!(step("link", false, true), Step::Skip);
    assert_eq!(step(".cache", true, false), Step::Skip);
    assert_eq!(step(".dotfiles", true, true), Step::Skip);
    assert_eq!(step("tool", true, true), Step::Take);
    assert_eq!(step("projects", true, false), Step::Enter);
    assert_eq!(step("", true, false), Step::Enter);
}

#[test]
fn a_way_leads_to_every_repo_found() {
    let deep = dir_entry(
        "/t",
        "a",
        false,
        vec![
            file_entry("/t/a", "f"),
            dir_entry(
                "/t/a",
                "b",
                false,
                vec![repo_entry("/t/a/b", "deep"), repo_entry("/t/a/b", ".gone")],
            ),
            dir_entry("/t/a", ".c", false, vec![repo_entry("/t/a/.c", "unseen")]),
        ],
    );
    let repos = scan_repos(Some(vec![repo_entry("/t", "top"), deep]));
    assert_eq!(names_of(&repos), vec!["deep", "top"]);
    assert!(repos.iter().all(|r| !r.name.starts_with('.')));
}

#[test]
fn contents_of_repos_and_hidden_dirs_make_no_difference() {
    let with = scan_repos(Some(vec![
        dir_entry("/t", "r", true, vec![repo_entry("/t/r", "inner")]),
        dir_entry("/t", ".h", false, vec![repo_entry("/t/.h", "inner")]),
    ]));
    let without = scan_repos(Some(vec![
        dir_entry("/t", "r", true, vec![]),
        dir_entry("/t", ".h", false, vec![]),
    ]));
    assert_eq!(names_of(&with), names_of(&without));
    assert_eq!(names_of(&with), vec!["r"]);
}
