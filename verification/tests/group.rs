use fleet_dedup::file_types::FileTypes;
use fleet_dedup::fingerprint::{hamming_distance, Fingerprint};
use fleet_dedup::group::{
    compute_avg_similarity, group_by_bits, group_repos, GroupKind, RepoGroup, Similarity,
};
use fleet_dedup::names::base_name;

fn grouped_fp(
    name: &str,
    content_hash: &str,
    deps: &[&str],
    tests: u32,
    commits: u32,
) -> Fingerprint {
    Fingerprint {
        repo_name: name.to_string(),
        repo_path: format!("/repos/{}", name),
        content_hash: content_hash.to_string(),
        dependencies: deps.iter().map(|s| s.to_string()).collect(),
        test_count: tests,
        source_file_count: 5,
        has_readme: false,
        commit_count: commits,
        file_types: FileTypes::new(),
    }
}

/// Repositories with unlike contents, and feature bits of which the first are `low`.
fn with_bits(repos: &[(&str, u8)]) -> (Vec<Fingerprint>, Vec<[u8; 32]>) {
    let fps = repos
        .iter()
        .map(|(name, low)| grouped_fp(name, &format!("{}{}", name, low), &[], 0, 0));
    let bits = repos.iter().map(|(_, low)| {
        let mut b = [0u8; 32];
        b[0] = *low;
        b
    });
    (fps.collect(), bits.collect())
}

#[test]
fn test_no_groups_for_unique_repos() {
    let fps = vec![
        grouped_fp("a", "hash_a", &["serde"], 1, 10),
        grouped_fp("b", "hash_b", &["clap"], 2, 20),
        grouped_fp("c", "hash_c", &["tokio"], 3, 30),
    ];
    let groups = group_repos(&fps, 2);
    assert!(groups.is_empty());
}

#[test]
fn test_exact_duplicate_grouping() {
    let fps = vec![
        grouped_fp("repo1", "same_hash", &["serde"], 1, 10),
        grouped_fp("repo2", "same_hash", &["serde"], 1, 20),
    ];
    let groups = group_repos(&fps, 2);
    assert_eq!(groups.len(), 1);
    assert_eq!(groups[0].kind, GroupKind::ExactDuplicate);
    assert_eq!(groups[0].primary, "repo2");
}

#[test]
fn test_fork_grouping_by_prefix() {
    let fp1 = grouped_fp("agent-riff", "hash1", &["clap"], 5, 50);
    let fp2 = grouped_fp("agent-riff-v2", "hash2", &["clap"], 100, 200);
    let fps = vec![fp1, fp2];
    let groups = group_repos(&fps, 10);
    assert!(!groups.is_empty(), "repos with same base name should be grouped");
}

#[test]
fn test_primary_picks_readme_and_tests() {
    let mut fps = vec![
        grouped_fp("repo-no-readme", "same", &["serde"], 0, 5),
        grouped_fp("repo-with-readme", "same", &["serde"], 10, 5),
    ];
    fps[1].has_readme = true;

    let groups = group_repos(&fps, 2);
    assert_eq!(groups[0].primary, "repo-with-readme");
}

#[test]
fn test_groups_sorted_by_kind() {
    let fps = vec![
        grouped_fp("a", "h1", &[], 0, 1),
        grouped_fp("b", "h1", &[], 0, 2),
    ];
    let groups = group_repos(&fps, 2);
    assert!(groups.iter().all(|g| g.kind == GroupKind::ExactDuplicate));
    assert_eq!(groups.len(), 1);
}

#[test]
fn nothing_to_group() {
    assert!(group_repos(&[], 3).is_empty());
    assert!(group_repos(&[grouped_fp("only", "h", &[], 1, 1)], 256).is_empty());
}

#[test]
fn exact_duplicates_are_wholly_alike() {
    let fps = vec![
        grouped_fp("b", "x", &["a"], 0, 0),
        grouped_fp("c", "y", &["b"], 99, 0),
        grouped_fp("a", "x", &["c"], 1, 7),
        grouped_fp("d", "x", &["d"], 0, 17),
    ];
    let groups = group_repos(&fps, 0);
    assert_eq!(groups.len(), 1);
    assert_eq!(groups[0].repos, vec!["b", "a", "d"]);
    // Both "a" and "d" score 22: the later one is kept.
    assert_eq!(groups[0].primary, "d");
    assert_eq!(groups[0].similarity, Similarity { whole: 1, rest: 0, pairs: 1 });
}

#[test]
fn scores_follow_the_formula() {
    let primary_of = |a: Fingerprint, b: Fingerprint| group_repos(&[a, b], 0)[0].primary.clone();
    let plain =
        |name: &str, tests: u32, commits: u32| grouped_fp(name, "same", &[], tests, commits);
    // Commits count up to a thousand.
    assert_eq!(primary_of(plain("one-test", 1, 1000), plain("commits", 0, 50_000)), "one-test");
    assert_eq!(primary_of(plain("many", 0, 1001), plain("few", 0, 1000)), "few");
    // A test counts as ten commits.
    assert_eq!(primary_of(plain("tests", 2, 0), plain("commits", 0, 19)), "tests");
    assert_eq!(primary_of(plain("tests", 2, 0), plain("commits", 0, 21)), "commits");
    // A README counts as a hundred source files.
    let mut readme = plain("readme", 0, 0);
    readme.has_readme = true;
    let mut files = plain("files", 0, 0);
    files.source_file_count = 106;
    assert_eq!(primary_of(files.clone(), readme.clone()), "files");
    files.source_file_count = 104;
    assert_eq!(primary_of(readme, files), "readme");
    // Counts of any size can be compared.
    assert_eq!(primary_of(plain("most", u32::MAX, 0), plain("more", u32::MAX - 1, 9)), "most");
}

#[test]
fn near_duplicates_come_in_pairs() {
    let (fps, bits) = with_bits(&[("a", 0), ("b", 0b111), ("c", 1), ("d", 0)]);
    let groups = group_by_bits(&fps, &bits, 3);
    assert_eq!(groups.len(), 2);
    assert_eq!(groups[0].kind, GroupKind::NearDuplicate);
    assert_eq!(groups[0].repos, vec!["a", "b"]);
    assert_eq!(groups[0].primary, "a");
    assert_eq!(groups[0].similarity, Similarity { whole: 0, rest: 253, pairs: 1 });
    assert_eq!(groups[1].repos, vec!["c", "d"]);
    assert_eq!(groups[1].similarity, Similarity { whole: 0, rest: 255, pairs: 1 });
}

#[test]
fn near_duplicates_keep_the_better_one() {
    let (mut fps, bits) = with_bits(&[("a", 0), ("b", 0)]);
    fps[1].test_count = 1;
    assert_eq!(group_by_bits(&fps, &bits, 0)[0].primary, "b");
    fps[0].test_count = 1;
    assert_eq!(group_by_bits(&fps, &bits, 0)[0].primary, "a");
}

#[test]
fn the_distance_decides_what_is_near() {
    let (fps, bits) = with_bits(&[("a", 0), ("b", 0b1111)]);
    assert!(group_by_bits(&fps, &bits, 3).is_empty());
    assert_eq!(group_by_bits(&fps, &bits, 4)[0].kind, GroupKind::NearDuplicate);
    assert_eq!(group_by_bits(&fps, &bits, u32::MAX)[0].kind, GroupKind::NearDuplicate);
}

#[test]
fn forks_share_a_base_name_and_are_not_too_far() {
    let (fps, bits) =
        with_bits(&[("tool", 0), ("tool-v2", 0b1111), ("tool-copy", 0xFF), ("other", 0b1010_1010)]);
    let groups = group_by_bits(&fps, &bits, 1);
    assert!(groups.is_empty());
    let groups = group_by_bits(&fps, &bits, 2);
    assert_eq!(groups.len(), 1);
    assert_eq!(groups[0].kind, GroupKind::Fork);
    assert_eq!(groups[0].repos, vec!["tool", "tool-v2"]);
    assert_eq!(groups[0].primary, "tool-v2");
    assert_eq!(groups[0].similarity, Similarity { whole: 0, rest: 252, pairs: 1 });
    let groups = group_by_bits(&fps, &bits, 3);
    assert_eq!(groups[0].repos, vec!["tool", "tool-v2", "tool-copy"]);
    // Distances of 4, 8 and 4.
    assert_eq!(groups[0].similarity, Similarity { whole: 2, rest: 240, pairs: 3 });
}

#[test]
fn averages_over_all_pairs() {
    let (_, bits) = with_bits(&[("a", 0), ("b", 0b1111), ("c", 0xFF), ("d", 0xFF)]);
    let all = compute_avg_similarity(&[0, 1, 2], &bits);
    assert_eq!(all, Similarity { whole: 2, rest: 240, pairs: 3 });
    for order in [[0, 2, 1], [1, 0, 2], [1, 2, 0], [2, 0, 1], [2, 1, 0]] {
        assert_eq!(compute_avg_similarity(&order, &bits), all);
    }
    assert_eq!(compute_avg_similarity(&[2, 3, 2], &bits), Similarity { whole: 3, rest: 0, pairs: 3 });
    assert_eq!(compute_avg_similarity(&[1], &bits), Similarity { whole: 1, rest: 0, pairs: 1 });
    assert_eq!(compute_avg_similarity(&[], &bits), Similarity { whole: 1, rest: 0, pairs: 1 });
}

#[test]
fn short_base_names_make_no_forks() {
    let (fps, bits) = with_bits(&[("ab", 0), ("ab-v2", 0b1111)]);
    assert!(group_by_bits(&fps, &bits, 3).is_empty());
    let (fps, bits) = with_bits(&[("abc", 0), ("abc-v2", 0b1111)]);
    assert_eq!(group_by_bits(&fps, &bits, 3).len(), 1);
    let (fps, bits) = with_bits(&[("a\u{e9}", 0), ("a\u{e9}-v2", 0b1111)]);
    assert_eq!(group_by_bits(&fps, &bits, 3).len(), 1);
}

#[test]
fn base_names() {
    let cases = [
        ("agent-riff", "agent-riff"),
        ("agent-riff-v2", "agent-riff"),
        ("agent-riff-v", "agent-riff-v"),
        ("tool-v12", "tool"),
        ("tool-copy", "tool"),
        ("tool-backup", "tool"),
        ("tool-old", "tool"),
        ("tool-bak", "tool"),
        ("tool-3", "tool"),
        ("tool-2024", "tool"),
        ("tool-v2-old", "tool-v2"),
        ("tool-copy2", "tool-copy2"),
        ("my-copy-tool", "my-copy-tool"),
        ("-2", ""),
        ("copy", "copy"),
        ("tool-", "tool-"),
        ("", ""),
    ];
    for (name, base) in cases {
        assert_eq!(base_name(name), base, "{}", name);
    }
}

#[test]
fn a_version_suffix_is_stripped_from_any_name() {
    for name in ["tool", "tool-v2", "", "a-copy", "\u{e9}-1"] {
        for suffix in ["-v1", "-v10", "-copy", "-backup", "-old", "-bak", "-0", "-42"] {
            assert_eq!(base_name(&format!("{}{}", name, suffix)), name);
        }
    }
}

fn mixed_fleet() -> (Vec<Fingerprint>, Vec<[u8; 32]>) {
    let (mut fps, bits) = with_bits(&[
        ("fork", 0b1100_0000),
        ("near-a", 0b0000_0001),
        ("same-a", 0xFF),
        ("fork-old", 0b0011_1100),
        ("near-b", 0b0000_0011),
        ("same-b", 0x7F),
        ("alone", 0b0101_0101),
    ]);
    fps[5].content_hash = fps[2].content_hash.clone();
    (fps, bits)
}

fn kinds(groups: &[RepoGroup]) -> Vec<GroupKind> {
    groups.iter().map(|g| g.kind).collect()
}

#[test]
fn groups_stand_in_the_order_of_their_kinds() {
    let (fps, bits) = mixed_fleet();
    let groups = group_by_bits(&fps, &bits, 2);
    assert_eq!(
        kinds(&groups),
        vec![GroupKind::ExactDuplicate, GroupKind::NearDuplicate, GroupKind::Fork]
    );
    assert_eq!(groups[0].repos, vec!["same-a", "same-b"]);
    assert_eq!(groups[1].repos, vec!["near-a", "near-b"]);
    assert_eq!(groups[2].repos, vec!["fork", "fork-old"]);
}

#[test]
fn no_repo_is_in_two_groups() {
    let (fps, bits) = mixed_fleet();
    for max in [0, 1, 2, 3, 8, 256] {
        let groups = group_by_bits(&fps, &bits, max);
        let mut names: Vec<&String> = groups.iter().flat_map(|g| g.repos.iter()).collect();
        let all = names.len();
        names.sort();
        names.dedup();
        assert_eq!(names.len(), all);
    }
}

#[test]
fn groups_have_members_a_primary_and_a_likeness() {
    let (fps, bits) = mixed_fleet();
    for max in [0, 2, 8] {
        for g in group_by_bits(&fps, &bits, max) {
            assert!(g.repos.len() >= 2);
            assert!(g.repos.contains(&g.primary));
            assert!(g.similarity.pairs >= 1);
            let agreeing = 256 * g.similarity.whole + g.similarity.rest as u128;
            assert!(agreeing <= 256 * g.similarity.pairs);
        }
    }
}

#[test]
fn what_is_left_is_neither_near_nor_forked() {
    let (fps, bits) = mixed_fleet();
    let max = 2;
    let groups = group_by_bits(&fps, &bits, max);
    let left: Vec<usize> = (0..fps.len())
        .filter(|i| groups.iter().all(|g| !g.repos.contains(&fps[*i].repo_name)))
        .collect();
    assert_eq!(left, vec![6]);
    for i in &left {
        for j in &left {
            if i != j {
                assert!(hamming_distance(&bits[*i], &bits[*j]) > max);
                assert_ne!(fps[*i].content_hash, fps[*j].content_hash);
            }
        }
    }
}

#[test]
fn no_near_duplicate_is_missed() {
    let (fps, bits) = mixed_fleet();
    let max = 2;
    let groups = group_by_bits(&fps, &bits, max);
    let others: Vec<usize> = (0..fps.len())
        .filter(|i| {
            groups
                .iter()
                .all(|g| g.kind == GroupKind::Fork || !g.repos.contains(&fps[*i].repo_name))
        })
        .collect();
    assert_eq!(others, vec![0, 3, 6]);
    for i in &others {
        for j in &others {
            assert!(i == j || hamming_distance(&bits[*i], &bits[*j]) > max);
        }
    }
}

#[test]
fn a_name_that_was_grouped_is_passed_over() {
    let (mut fps, bits) = with_bits(&[("twin", 0), ("copy-of-twin", 0xF0), ("twin", 0), ("x", 0)]);
    fps[1].content_hash = fps[0].content_hash.clone();
    fps[2].content_hash = "other".to_string();
    // The third repository is called as the first, which has a group.
    let groups = group_by_bits(&fps, &bits, 0);
    assert_eq!(groups.len(), 1);
    assert_eq!(groups[0].repos, vec!["twin", "copy-of-twin"]);
}

#[test]
fn feature_bits_decide_what_is_near() {
    let fps = vec![grouped_fp("p", "1", &["a"], 8, 10), grouped_fp("q", "2", &["a"], 8, 11)];
    let groups = group_repos(&fps, 3);
    assert_eq!(groups.len(), 1);
    assert_eq!(groups[0].kind, GroupKind::NearDuplicate);
    assert_eq!(groups[0].primary, "q");
    assert_eq!(groups[0].similarity, Similarity { whole: 0, rest: 255, pairs: 1 });
}
