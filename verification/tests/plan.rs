use fleet_dedup::file_types::FileTypes;
use fleet_dedup::fingerprint::Fingerprint;
use fleet_dedup::group::{group_repos, GroupKind, RepoGroup, Similarity};
use fleet_dedup::plan::{generate_plan, savings_text, DedupPlan};

fn planned_fp(name: &str) -> Fingerprint {
    Fingerprint {
        repo_name: name.to_string(),
        repo_path: format!("/repos/{}", name),
        content_hash: "test_hash".to_string(),
        dependencies: vec![],
        test_count: 5,
        source_file_count: 10,
        has_readme: true,
        commit_count: 42,
        file_types: FileTypes::new(),
    }
}

fn planned_group(kind: GroupKind, repos: &[&str], primary: &str, share: u128) -> RepoGroup {
    RepoGroup {
        kind,
        repos: repos.iter().map(|r| r.to_string()).collect(),
        primary: primary.to_string(),
        similarity: Similarity { whole: share, rest: 0, pairs: 100 },
    }
}

fn one_decimal(archive: usize, total: usize) -> String {
    format!("{:.1}", (archive as f64 / total as f64) * 100.0)
}

fn acts(plan: &DedupPlan) -> Vec<(&str, &str)> {
    plan.actions.iter().map(|a| (a.repo.as_str(), a.action.as_str())).collect()
}

#[test]
fn test_empty_plan() {
    let plan = generate_plan(&[], &[], one_decimal);
    assert_eq!(plan.summary.total_repos, 0);
    assert_eq!(plan.actions.len(), 0);
    assert_eq!(
        plan.summary.potential_savings,
        "0.0% of repos (0/0 repos could be archived)"
    );
}

#[test]
fn test_single_exact_duplicate_group() {
    let groups = vec![planned_group(
        GroupKind::ExactDuplicate,
        &["repo-a", "repo-b"],
        "repo-a",
        100,
    )];
    let fps = vec![planned_fp("repo-a"), planned_fp("repo-b")];
    let plan = generate_plan(&groups, &fps, one_decimal);
    assert_eq!(plan.summary.exact_duplicates, 1);
    assert_eq!(plan.summary.repos_to_archive, 1);
    assert_eq!(plan.summary.repos_to_keep, 1);
}

#[test]
fn test_keep_action_has_reason() {
    let groups = vec![planned_group(GroupKind::NearDuplicate, &["x", "y"], "x", 95)];
    let fps = vec![planned_fp("x"), planned_fp("y")];
    let plan = generate_plan(&groups, &fps, one_decimal);
    let keep = plan.actions.iter().find(|a| a.action == "keep").unwrap();
    assert!(!keep.reason.is_empty());
    assert_eq!(keep.reason, "Primary repo for near-duplicate group — most commits/tests/readme");
}

#[test]
fn test_archive_action_for_non_primary() {
    let groups = vec![planned_group(GroupKind::Fork, &["main", "fork1"], "main", 80)];
    let fps = vec![planned_fp("main"), planned_fp("fork1")];
    let plan = generate_plan(&groups, &fps, one_decimal);
    let archive_actions: Vec<_> = plan.actions.iter().filter(|a| a.action == "archive").collect();
    assert_eq!(archive_actions.len(), 1);
    assert_eq!(archive_actions[0].repo, "fork1");
}

#[test]
fn test_savings_percentage() {
    let groups = vec![planned_group(GroupKind::ExactDuplicate, &["a", "b"], "a", 100)];
    let fps = vec![planned_fp("a"), planned_fp("b"), planned_fp("c"), planned_fp("d")];
    let plan = generate_plan(&groups, &fps, one_decimal);
    assert!(plan.summary.potential_savings.contains("25.0%"));
    assert_eq!(
        plan.summary.potential_savings,
        "25.0% of repos (1/4 repos could be archived)"
    );
}

#[test]
fn savings_are_written_out() {
    assert_eq!(savings_text("14.9", 7, 47), "14.9% of repos (7/47 repos could be archived)");
    assert_eq!(savings_text("", 0, 1000), "% of repos (0/1000 repos could be archived)");
}

#[test]
fn the_share_is_asked_for_once_and_with_the_counts() {
    let calls = std::cell::RefCell::new(vec![]);
    let groups = vec![planned_group(GroupKind::Fork, &["a", "b", "c"], "b", 90)];
    let fps = vec![planned_fp("a"), planned_fp("b"), planned_fp("c")];
    let plan = generate_plan(&groups, &fps, |archive: usize, total: usize| {
        calls.borrow_mut().push((archive, total));
        "two thirds, ".to_string()
    });
    assert_eq!(*calls.borrow(), vec![(2, 3)]);
    assert_eq!(
        plan.summary.potential_savings,
        "two thirds, % of repos (2/3 repos could be archived)"
    );
}

#[test]
fn a_whole_plan() {
    let groups = vec![
        planned_group(GroupKind::ExactDuplicate, &["a", "b", "c"], "b", 100),
        planned_group(GroupKind::NearDuplicate, &["d", "e"], "d", 99),
        planned_group(GroupKind::Fork, &["f", "f-old"], "f", 97),
    ];
    let mut fps: Vec<Fingerprint> =
        ["a", "b", "c", "d", "e", "f", "g", "h"].iter().map(|n| planned_fp(n)).collect();
    fps[1].has_readme = false;
    fps[1].commit_count = 7;
    let plan = generate_plan(&groups, &fps, one_decimal);
    assert_eq!(plan.summary.total_repos, 8);
    assert_eq!(plan.summary.exact_duplicates, 1);
    assert_eq!(plan.summary.near_duplicates, 1);
    assert_eq!(plan.summary.forks, 1);
    assert_eq!(plan.summary.repos_to_archive, 4);
    assert_eq!(plan.summary.repos_to_keep, 4);
    assert_eq!(
        plan.summary.potential_savings,
        "50.0% of repos (4/8 repos could be archived)"
    );
    assert_eq!(
        acts(&plan),
        vec![
            ("b", "keep"),
            ("a", "archive"),
            ("c", "archive"),
            ("d", "keep"),
            ("e", "archive"),
            ("f", "keep"),
            ("f-old", "archive"),
        ]
    );
    let ids: Vec<Option<usize>> = plan.actions.iter().map(|a| a.group_id).collect();
    assert_eq!(ids, vec![Some(0), Some(0), Some(0), Some(1), Some(1), Some(2), Some(2)]);
    let reasons: Vec<&str> = plan.actions.iter().map(|a| a.reason.as_str()).collect();
    assert_eq!(
        reasons,
        vec![
            "Primary repo for exact-duplicate group — most commits/tests/readme",
            "Exact duplicate — safe to archive, consider git remote consolidation",
            "Exact duplicate — safe to archive, consider git remote consolidation",
            "Primary repo for near-duplicate group — most commits/tests/readme",
            "Near-duplicate — review before archiving, may contain unique changes",
            "Primary repo for fork group — most commits/tests/readme",
            "Fork — consider merging unique commits into primary, then archive",
        ]
    );
    let details = &plan.duplicate_groups;
    assert_eq!(details.len(), 3);
    assert_eq!(details[0].id, 0);
    assert_eq!(details[0].kind, "exact_duplicate");
    assert_eq!(details[1].kind, "near_duplicate");
    assert_eq!(details[2].kind, "fork");
    assert_eq!(details[2].id, 2);
    assert_eq!(details[0].primary, "b");
    assert_eq!(details[1].similarity, Similarity { whole: 99, rest: 0, pairs: 100 });
    assert_eq!(details[0].suggestion, "Archive 2 repo(s), keep b as canonical");
    assert_eq!(
        details[1].suggestion,
        "Review differences between repos, merge unique work into d, then archive others"
    );
    assert_eq!(
        details[2].suggestion,
        "Consolidate forks into f, cherry-pick any unique commits from others"
    );
    let b = &details[0].repos[1];
    assert_eq!(
        (b.name.as_str(), b.path.as_str(), b.source_files, b.tests, b.commits, b.has_readme),
        ("b", "/repos/b", 10, 5, 7, false)
    );
    // Nothing is known of "f-old".
    let unknown = &details[2].repos[1];
    assert_eq!(
        (
            unknown.name.as_str(),
            unknown.path.as_str(),
            unknown.source_files,
            unknown.tests,
            unknown.commits,
            unknown.has_readme
        ),
        ("f-old", "", 0, 0, 0, false)
    );
}

#[test]
fn the_last_fingerprint_of_a_name_is_shown() {
    let groups = vec![planned_group(GroupKind::ExactDuplicate, &["a", "b"], "b", 100)];
    let mut fps = vec![planned_fp("a"), planned_fp("b"), planned_fp("a")];
    fps[2].repo_path = "/elsewhere/a".to_string();
    let plan = generate_plan(&groups, &fps, one_decimal);
    assert_eq!(plan.duplicate_groups[0].repos[0].path, "/elsewhere/a");
}

#[test]
fn a_name_is_archived_once() {
    let groups = vec![
        planned_group(GroupKind::ExactDuplicate, &["a", "x", "x"], "a", 100),
        planned_group(GroupKind::Fork, &["b", "x"], "b", 100),
    ];
    let fps = vec![planned_fp("a"), planned_fp("x"), planned_fp("b"), planned_fp("x")];
    let plan = generate_plan(&groups, &fps, one_decimal);
    assert_eq!(plan.summary.repos_to_archive, 1);
    assert_eq!(plan.summary.repos_to_keep, 3);
    assert_eq!(plan.actions.len(), 5);
}

fn fleet() -> Vec<Fingerprint> {
    let mut fps: Vec<Fingerprint> =
        ["a", "b", "c", "tool", "tool-v2", "lone"].iter().map(|n| planned_fp(n)).collect();
    fps[1].commit_count = 50;
    for i in 3..6 {
        fps[i].content_hash = format!("h{}", i);
    }
    fps[3].test_count = 0;
    fps[4].test_count = 0xF;
    fps[5].dependencies = vec!["serde".to_string()];
    fps[5].test_count = 0xFF00;
    fps
}

#[test]
fn what_was_grouped_can_be_planned() {
    let fps = fleet();
    let groups = group_repos(&fps, 2);
    assert_eq!(groups.len(), 2);
    let plan = generate_plan(&groups, &fps, one_decimal);
    let s = &plan.summary;
    assert_eq!(s.exact_duplicates + s.near_duplicates + s.forks, groups.len());
    assert_eq!((s.exact_duplicates, s.forks), (1, 1));
    // All but one of each group are archived.
    assert_eq!(s.repos_to_archive, 3);
    assert_eq!(s.repos_to_keep + s.repos_to_archive, s.total_repos);
    assert_eq!(plan.actions.len(), groups.iter().map(|g| g.repos.len()).sum::<usize>());
}

#[test]
fn primaries_are_kept_and_others_archived() {
    let fps = fleet();
    let groups = group_repos(&fps, 2);
    let plan = generate_plan(&groups, &fps, one_decimal);
    for (id, g) in groups.iter().enumerate() {
        for repo in &g.repos {
            let wanted = if *repo == g.primary { "keep" } else { "archive" };
            let of_repo: Vec<_> = plan.actions.iter().filter(|a| a.repo == *repo).collect();
            assert_eq!(of_repo.len(), 1);
            assert_eq!(of_repo[0].action, wanted);
            assert_eq!(of_repo[0].group_id, Some(id));
        }
    }
    assert!(plan.actions.iter().all(|a| a.group_id.unwrap() < groups.len()));
    assert_eq!(plan.summary.repos_to_archive, plan.actions.len() - groups.len());
    assert!(plan.summary.repos_to_keep >= groups.len());
}
